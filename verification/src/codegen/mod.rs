use vstd::prelude::*;
use crate::model::ast;
use crate::model::ir;
use crate::model::ir::GlobalStrNum;
use crate::name_map::NameMap;
use crate::semantics::global_context::GlobalContext;
use crate::codegen::class::{ClassRegistry, LayoutModel, class_layout, parent_layout, struct_matches};
use crate::codegen::function::{FunctionCodeGen, body_scope, first_return_kept, cg_stmts, function_wf, param_names_distinct, signature_matches, stmts_regs, stmts_size, strings_extend, strings_wf, vars_bound};
use crate::semantics::global_context::FunModel;
use crate::semantics::global_context::builtin_functions;
use crate::model::ir_text::{function_text, functions_text, global_string_text, global_strings_text, llvm_type_text, program_text, runtime_declarations};

pub mod class;
pub mod function;

verus! {

/// The functions of a program in the order in which their code is generated: each top-level
/// function, and each class's methods in the order of the class's members.
pub open spec fn generated_functions(defs: Seq<ast::TopDef>) -> Seq<ast::FunDef>
    decreases defs.len(),
{
    if defs.len() == 0 {
        Seq::empty()
    } else {
        generated_functions(defs.drop_last()) + match defs.last() {
            ast::TopDef::FunDef(f) => seq![f],
            ast::TopDef::ClassDef(cl) => class_methods(cl.items@),
            ast::TopDef::Error => Seq::empty(),
        }
    }
}

/// The methods among a class's members, in order.
pub open spec fn class_methods(items: Seq<ast::ClassItemDef>) -> Seq<ast::FunDef>
    decreases items.len(),
{
    if items.len() == 0 {
        Seq::empty()
    } else {
        class_methods(items.drop_last()) + match items.last().inner {
            ast::InnerClassItemDef::Method(f) => seq![f],
            _ => Seq::empty(),
        }
    }
}

/// A function whose code the generator is sure to produce: its parameters have distinct
/// names, its body is made of statements that the generator handles (see `cg_stmt`), and it is
/// small enough for the registers and labels.
pub open spec fn fun_cg_ok(fns: Map<Seq<char>, FunModel>, f: ast::FunDef) -> bool {
    &&& cg_stmts(fns, body_scope(f.args@), f.body.stmts@).ok
    &&& param_names_distinct(f.args@)
    &&& f.args@.len() + stmts_regs(f.body.stmts@, vars_bound(f.args@, f.body.stmts@)) < 4294967295
    &&& 4 * stmts_size(f.body.stmts@) + 3 < 4294967294
}

/// Every definition is a function whose code the generator is sure to produce.
pub open spec fn program_cg_ok(fns: Map<Seq<char>, FunModel>, defs: Seq<ast::TopDef>) -> bool {
    forall|i: int| 0 <= i < defs.len() ==> (#[trigger] defs[i] matches ast::TopDef::FunDef(f) && fun_cg_ok(fns, f))
}

/// Whether `fs` is the generated code of the functions `defs`, one by one.
pub open spec fn functions_generated(fs: Seq<ir::Function>, defs: Seq<ast::FunDef>) -> bool {
    &&& fs.len() == defs.len()
    &&& forall|i: int| 0 <= i < fs.len() ==> function_wf(#[trigger] fs[i]) && signature_matches(fs[i], defs[i])
}

/// Generates the IR of a whole program that passed the semantic checks.
pub struct CodeGen<'a> {
    ast: &'a ast::Program,
    gctx: &'a GlobalContext,
}

impl<'a> CodeGen<'a> {
    pub closed spec fn program(&self) -> &'a ast::Program {
        self.ast
    }

    pub closed spec fn global_context(&self) -> &'a GlobalContext {
        self.gctx
    }

    pub fn new(ast: &'a ast::Program, gctx: &'a GlobalContext) -> (res: CodeGen<'a>)
        ensures
            res.program() == ast,
            res.global_context() == gctx,
    {
        CodeGen { ast, gctx }
    }

    /// Generates one function or method and appends it to the program.
    fn generate_one(&self, prog_ir: &mut ir::Program, cl_desc: Option<&crate::semantics::global_context::ClassDesc>, fun: &ast::FunDef) -> (res: bool)
        requires
            self.gctx.wf(),
            strings_wf(old(prog_ir).global_strings),
        ensures
            strings_wf(final(prog_ir).global_strings),
            final(prog_ir).structs == old(prog_ir).structs,
            res ==> strings_extend(old(prog_ir).global_strings, final(prog_ir).global_strings),
            res ==> final(prog_ir).functions@.len() == old(prog_ir).functions@.len() + 1
                && final(prog_ir).functions@.drop_last() == old(prog_ir).functions@
                && function_wf(final(prog_ir).functions@.last())
                && signature_matches(final(prog_ir).functions@.last(), *fun)
                && first_return_kept(final(prog_ir).functions@.last(), *fun),
            cl_desc is None && fun_cg_ok(self.gctx.functions(), *fun) ==> res,
    {
        let mut strings: NameMap<GlobalStrNum> = NameMap::new();
        std::mem::swap(&mut strings, &mut prog_ir.global_strings);
        let fun_cg = FunctionCodeGen::new(self.gctx, cl_desc, strings);
        match fun_cg.generate_function_ir(fun) {
            Some((fun_ir, strings_after)) => {
                prog_ir.global_strings = strings_after;
                prog_ir.functions.push(fun_ir);
                proof {
                    assert(prog_ir.functions@.drop_last() =~= old(prog_ir).functions@);
                }
                true
            },
            None => {
                prog_ir.global_strings = NameMap::new();
                false
            },
        }
    }
}


/// Whether the functions of `fs` from position `start` on are the generated code of `defs`.
pub open spec fn generated_from(fs: Seq<ir::Function>, start: int, defs: Seq<ast::FunDef>) -> bool {
    &&& fs.len() == start + defs.len()
    &&& forall|j: int| 0 <= j < defs.len() ==> function_wf(#[trigger] fs[start + j]) && signature_matches(fs[start + j], defs[j])
        && first_return_kept(fs[start + j], defs[j])
}

/// Each function of `fs` keeps the return that the body of its definition in `defs` starts
/// with, if it does (see `first_return_kept`).
pub open spec fn bodies_generated(fs: Seq<ir::Function>, defs: Seq<ast::FunDef>) -> bool {
    &&& fs.len() == defs.len()
    &&& forall|i: int| 0 <= i < fs.len() ==> first_return_kept(#[trigger] fs[i], defs[i])
}

impl<'a> CodeGen<'a> {
    /// Generates every function and every method, in the order of the definitions, and
    /// appends them to the program. Fails where a function cannot be generated, a class is
    /// unknown to the global context, or a definition is malformed.
    fn generate_functions_ir(&self, prog_ir: &mut ir::Program, class_registry: &ClassRegistry) -> (res: bool)
        requires
            self.gctx.wf(),
            strings_wf(old(prog_ir).global_strings),
        ensures
            strings_wf(final(prog_ir).global_strings),
            final(prog_ir).structs == old(prog_ir).structs,
            res ==> strings_extend(old(prog_ir).global_strings, final(prog_ir).global_strings),
            res ==> (forall|j: int| 0 <= j < old(prog_ir).functions@.len() ==> #[trigger] final(prog_ir).functions@[j] == old(prog_ir).functions@[j]),
            res ==> generated_from(final(prog_ir).functions@, old(prog_ir).functions@.len() as int, generated_functions(self.ast.defs@)),
            program_cg_ok(self.gctx.functions(), self.ast.defs@) ==> res,
    {
        let defs = &self.ast.defs;
        let ghost start = prog_ir.functions@.len() as int;
        let mut i: usize = 0;
        while i < defs.len()
            invariant
                self.gctx.wf(),
                i <= defs@.len(),
                *defs == self.ast.defs,
                strings_wf(prog_ir.global_strings),
                strings_extend(old(prog_ir).global_strings, prog_ir.global_strings),
                prog_ir.structs == old(prog_ir).structs,
                start == old(prog_ir).functions@.len(),
                forall|j: int| 0 <= j < start ==> #[trigger] prog_ir.functions@[j] == old(prog_ir).functions@[j],
                generated_from(prog_ir.functions@, start, generated_functions(defs@.take(i as int))),
            decreases defs@.len() - i,
        {
            proof {
                if program_cg_ok(self.gctx.functions(), defs@) {
                    assert(defs@[i as int] matches ast::TopDef::FunDef(f) && fun_cg_ok(self.gctx.functions(), f));
                }
            }
            let ghost before = prog_ir.functions@;
            let ghost done = generated_functions(defs@.take(i as int));
            proof {
                assert(defs@.take(i + 1).drop_last() =~= defs@.take(i as int));
                assert(defs@.take(i + 1).last() == defs@[i as int]);
            }
            match &defs[i] {
                ast::TopDef::FunDef(fun) => {
                    let ghost strings_before = prog_ir.global_strings;
                    if !self.generate_one(prog_ir, None, fun) {
                        return false;
                    }
                    proof {
                        let now = generated_functions(defs@.take(i + 1));
                        assert(now == done + seq![*fun]);
                        assert forall|j: int| 0 <= j < now.len() implies function_wf(#[trigger] prog_ir.functions@[start + j])
                            && signature_matches(prog_ir.functions@[start + j], now[j])
                            && first_return_kept(prog_ir.functions@[start + j], now[j]) by {
                            if j < done.len() {
                                assert(prog_ir.functions@[start + j] == before[start + j]);
                            }
                        }
                        assert forall|j: int| 0 <= j < start implies #[trigger] prog_ir.functions@[j] == old(prog_ir).functions@[j] by {
                            assert(prog_ir.functions@[j] == before[j]);
                        }
                        assert forall|x: int| 0 <= x < old(prog_ir).global_strings.entries().len()
                            implies #[trigger] prog_ir.global_strings.entries()[x] == old(prog_ir).global_strings.entries()[x] by {
                            assert(prog_ir.global_strings.entries()[x] == strings_before.entries()[x]);
                        }
                    }
                },
                ast::TopDef::ClassDef(cl) => {
                    let cl_desc = match self.gctx.get_class_description(cl.name.inner.as_str()) {
                        Some(d) => d,
                        None => return false,
                    };
                    let mut k: usize = 0;
                    while k < cl.items.len()
                        invariant
                            self.gctx.wf(),
                            !program_cg_ok(self.gctx.functions(), self.ast.defs@),
                            k <= cl.items@.len(),
                            strings_wf(prog_ir.global_strings),
                            strings_extend(old(prog_ir).global_strings, prog_ir.global_strings),
                            prog_ir.structs == old(prog_ir).structs,
                            start == old(prog_ir).functions@.len(),
                            forall|j: int| 0 <= j < start ==> #[trigger] prog_ir.functions@[j] == old(prog_ir).functions@[j],
                            generated_from(prog_ir.functions@, start, done + class_methods(cl.items@.take(k as int))),
                        decreases cl.items@.len() - k,
                    {
                        let ghost before_k = prog_ir.functions@;
                        let ghost done_k = done + class_methods(cl.items@.take(k as int));
                        proof {
                            assert(cl.items@.take(k + 1).drop_last() =~= cl.items@.take(k as int));
                            assert(cl.items@.take(k + 1).last() == cl.items@[k as int]);
                        }
                        match &cl.items[k].inner {
                            ast::InnerClassItemDef::Field(_, _) => {
                                proof {
                                    assert(class_methods(cl.items@.take(k + 1)) =~= class_methods(cl.items@.take(k as int)));
                                }
                            },
                            ast::InnerClassItemDef::Method(fun) => {
                                let ghost strings_before = prog_ir.global_strings;
                                if !self.generate_one(prog_ir, Some(cl_desc), fun) {
                                    return false;
                                }
                                proof {
                                    let now = done + class_methods(cl.items@.take(k + 1));
                                    assert(now =~= done_k + seq![*fun]);
                                    assert forall|j: int| 0 <= j < now.len() implies function_wf(#[trigger] prog_ir.functions@[start + j])
                                        && signature_matches(prog_ir.functions@[start + j], now[j])
                                        && first_return_kept(prog_ir.functions@[start + j], now[j]) by {
                                        if j < done_k.len() {
                                            assert(prog_ir.functions@[start + j] == before_k[start + j]);
                                        }
                                    }
                                    assert forall|j: int| 0 <= j < start implies #[trigger] prog_ir.functions@[j] == old(prog_ir).functions@[j] by {
                                        assert(prog_ir.functions@[j] == before_k[j]);
                                    }
                                    assert forall|x: int| 0 <= x < old(prog_ir).global_strings.entries().len()
                                        implies #[trigger] prog_ir.global_strings.entries()[x] == old(prog_ir).global_strings.entries()[x] by {
                                        assert(prog_ir.global_strings.entries()[x] == strings_before.entries()[x]);
                                    }
                                }
                            },
                            ast::InnerClassItemDef::Error => return false,
                        }
                        k = k + 1;
                    }
                    proof {
                        assert(cl.items@.take(cl.items@.len() as int) =~= cl.items@);
                        assert(generated_functions(defs@.take(i + 1)) == done + class_methods(cl.items@));
                    }
                },
                ast::TopDef::Error => return false,
            }
            i = i + 1;
        }
        proof {
            assert(defs@.take(defs@.len() as int) =~= defs@);
        }
        true
    }
}


/// Whether definition `i` is a class.
pub open spec fn class_at(defs: Seq<ast::TopDef>, i: int) -> bool {
    0 <= i < defs.len() && defs[i] is ClassDef
}

/// The class defined by definition `i`.
pub open spec fn class_def(defs: Seq<ast::TopDef>, i: int) -> ast::ClassDef {
    defs[i]->ClassDef_0
}

/// The name of the class defined by definition `i`.
pub open spec fn cname(defs: Seq<ast::TopDef>, i: int) -> Seq<char> {
    class_def(defs, i).name.inner@
}

/// The name of a class's parent, if it has one.
pub open spec fn parent_of(cl: ast::ClassDef) -> Option<Seq<char>> {
    match cl.parent_type {
        Some(t) => match t.inner@ {
            ast::TypeModel::Class(p) => Some(p),
            _ => None,
        },
        None => None,
    }
}

/// No two classes share a name.
pub open spec fn class_names_distinct(defs: Seq<ast::TopDef>) -> bool {
    forall|i: int, j: int| class_at(defs, i) && class_at(defs, j) && i != j ==> #[trigger] cname(defs, i) != #[trigger] cname(defs, j)
}

/// Every declared superclass is written as a class type, and no class member is malformed.
pub open spec fn classes_well_formed(defs: Seq<ast::TopDef>) -> bool {
    forall|i: int| #[trigger] class_at(defs, i) ==> (match class_def(defs, i).parent_type {
        Some(t) => t.inner@ is Class,
        None => true,
    }) && forall|k: int| 0 <= k < class_def(defs, i).items@.len()
        ==> !((#[trigger] class_def(defs, i).items@[k]).inner is Error)
}

/// Class `i` reaches a class without a parent by at most `fuel` steps up the hierarchy, each
/// parent being a class of the program.
pub open spec fn rooted_within(defs: Seq<ast::TopDef>, i: int, fuel: nat) -> bool
    decreases fuel,
{
    class_at(defs, i) && match parent_of(class_def(defs, i)) {
        None => true,
        Some(p) => fuel > 0 && exists|j: int| class_at(defs, j) && #[trigger] cname(defs, j) == p
            && rooted_within(defs, j, (fuel - 1) as nat),
    }
}

/// Class `i`'s chain of superclasses ends, within the program, at a class without a parent.
pub open spec fn rooted(defs: Seq<ast::TopDef>, i: int) -> bool {
    exists|fuel: nat| rooted_within(defs, i, fuel)
}

/// The names of the classes whose chain of superclasses ends at a class without a parent.
pub open spec fn rooted_names(defs: Seq<ast::TopDef>) -> Set<Seq<char>> {
    Set::new(|n: Seq<char>| exists|i: int| rooted(defs, i) && cname(defs, i) == n)
}

/// Every class with a layout has its parent's, and its layout is the one its definition gives
/// on top of its parent's.
pub open spec fn registry_consistent(defs: Seq<ast::TopDef>, layouts: Map<Seq<char>, LayoutModel>) -> bool {
    forall|i: int| class_at(defs, i) && #[trigger] layouts.contains_key(cname(defs, i)) ==> (match parent_of(class_def(defs, i)) {
        Some(p) => layouts.contains_key(p),
        None => true,
    }) && layouts[cname(defs, i)] == class_layout(class_def(defs, i), parent_layout(class_def(defs, i), layouts))
}

pub open spec fn in_queue(q: Seq<usize>, d: int) -> bool {
    exists|k: int| 0 <= k < q.len() && q[k] == d
}

/// A list of distinct numbers below `n` has at most `n` of them.
proof fn lemma_distinct_bounded(q: Seq<usize>, n: int)
    requires
        q.no_duplicates(),
        forall|k: int| 0 <= k < q.len() ==> (q[k] as int) < n,
        0 <= n,
    ensures
        q.len() <= n,
{
    let qi = q.map_values(|x: usize| x as int);
    assert(qi.no_duplicates()) by {
        assert forall|a: int, b: int| 0 <= a < qi.len() && 0 <= b < qi.len() && a != b implies qi[a] != qi[b] by {
            assert(q[a] != q[b]);
        }
    }
    qi.unique_seq_to_set();
    vstd::set_lib::lemma_int_range(0, n);
    assert(qi.to_set().subset_of(vstd::set_lib::set_int_range(0, n))) by {
        assert forall|x: int| qi.to_set().contains(x) implies vstd::set_lib::set_int_range(0, n).contains(x) by {
            let k = choose|k: int| 0 <= k < qi.len() && qi[k] == x;
        }
    }
    vstd::set_lib::lemma_len_subset(qi.to_set(), vstd::set_lib::set_int_range(0, n));
}

/// A class whose chain of superclasses ends at a parentless class is in a queue that holds
/// every parentless class and every class whose parent's name is that of a class in it.
proof fn lemma_rooted_in_queue(defs: Seq<ast::TopDef>, q: Seq<usize>, i: int, fuel: nat)
    requires
        rooted_within(defs, i, fuel),
        forall|d: int| #[trigger] class_at(defs, d) && parent_of(class_def(defs, d)) is None ==> in_queue(q, d),
        forall|d: int, k: int| #[trigger] class_at(defs, d) && 0 <= k < q.len() && #[trigger] q[k] < defs.len()
            && parent_of(class_def(defs, d)) == Some(cname(defs, q[k] as int)) ==> in_queue(q, d),
        forall|k: int| 0 <= k < q.len() ==> (q[k] as int) < defs.len(),
    ensures
        in_queue(q, i),
    decreases fuel,
{
    match parent_of(class_def(defs, i)) {
        None => {},
        Some(p) => {
            let j = choose|j: int| class_at(defs, j) && #[trigger] cname(defs, j) == p && rooted_within(defs, j, (fuel - 1) as nat);
            lemma_rooted_in_queue(defs, q, j, (fuel - 1) as nat);
            let k = choose|k: int| 0 <= k < q.len() && q[k] == j;
            assert(class_at(defs, i) && 0 <= k < q.len() && q[k] < defs.len());
        },
    }
}


/// The name of a class's parent, if it has one written as a class type.
fn class_parent_name(cl: &ast::ClassDef) -> (res: Option<&String>)
    ensures
        match res {
            Some(p) => parent_of(*cl) == Some(p@),
            None => parent_of(*cl) is None,
        },
{
    match &cl.parent_type {
        Some(t) => match &t.inner {
            ast::InnerType::Class(p) => Some(p),
            _ => None,
        },
        None => None,
    }
}

impl<'a> CodeGen<'a> {
    /// Lays out the classes, each after its parent: first the classes without a parent, then,
    /// breadth first, the subclasses of each laid-out class in the order of the definitions.
    /// Exactly the classes whose chain of superclasses ends at a parentless class are laid out.
    fn calculate_class_registry(&self, class_registry: &mut ClassRegistry)
        requires
            old(class_registry).wf(),
            old(class_registry).layouts() == Map::<Seq<char>, LayoutModel>::empty(),
            class_names_distinct(self.ast.defs@),
            classes_well_formed(self.ast.defs@),
        ensures
            final(class_registry).wf(),
            final(class_registry).layouts().dom() == rooted_names(self.ast.defs@),
            registry_consistent(self.ast.defs@, final(class_registry).layouts()),
    {
        let defs = &self.ast.defs;
        let ghost ds = defs@;
        let n = defs.len();
        let mut queue: Vec<usize> = Vec::new();
        let mut d: usize = 0;
        while d < n
            invariant
                n == ds.len(),
                *defs == self.ast.defs,
                ds == defs@,
                class_names_distinct(ds),
                classes_well_formed(ds),
                d <= n,
                class_registry.wf(),
                queue@.no_duplicates(),
                forall|k: int| 0 <= k < queue@.len() ==> (#[trigger] queue@[k] as int) < d,
                forall|k: int| 0 <= k < queue@.len() ==> #[trigger] class_at(ds, queue@[k] as int)
                    && parent_of(class_def(ds, queue@[k] as int)) is None,
                forall|nm: Seq<char>| #[trigger] class_registry.layouts().contains_key(nm) <==>
                    exists|k: int| 0 <= k < queue@.len() && cname(ds, queue@[k] as int) == nm,
                registry_consistent(ds, class_registry.layouts()),
                forall|x: int| 0 <= x < d && #[trigger] class_at(ds, x) && parent_of(class_def(ds, x)) is None ==> in_queue(queue@, x),
            decreases n - d,
        {
            match &defs[d] {
                ast::TopDef::ClassDef(cl) => {
                    if class_parent_name(cl).is_none() {
                        proof {
                            assert(class_at(ds, d as int));
                            assert(class_def(ds, d as int) == *cl);
                            assert(cl.parent_type is None);
                        }
                        let ghost before = class_registry.layouts();
                        class_registry.process_class_def(cl);
                        let ghost q_before = queue@;
                        queue.push(d);
                        proof {
                            assert(!before.contains_key(cl.name.inner@)) by {
                                if before.contains_key(cl.name.inner@) {
                                    let k = choose|k: int| 0 <= k < q_before.len() && cname(ds, q_before[k] as int) == cl.name.inner@;
                                    assert(cname(ds, d as int) == cl.name.inner@);
                                }
                            }
                            assert(queue@.no_duplicates()) by {
                                assert forall|a: int, b: int| 0 <= a < queue@.len() && 0 <= b < queue@.len() && a != b implies queue@[a] != queue@[b] by {
                                    if a < q_before.len() && b < q_before.len() {
                                        assert(q_before[a] != q_before[b]);
                                    }
                                }
                            }
                            let after = class_registry.layouts();
                            assert forall|nm: Seq<char>| #[trigger] after.contains_key(nm) <==>
                                exists|k: int| 0 <= k < queue@.len() && cname(ds, queue@[k] as int) == nm by {
                                if after.contains_key(nm) && nm != cl.name.inner@ {
                                    let k = choose|k: int| 0 <= k < q_before.len() && cname(ds, q_before[k] as int) == nm;
                                    assert(queue@[k] == q_before[k]);
                                }
                                if nm == cl.name.inner@ {
                                    assert(cname(ds, queue@[q_before.len() as int] as int) == nm);
                                }
                                if exists|k: int| 0 <= k < queue@.len() && cname(ds, queue@[k] as int) == nm {
                                    let k = choose|k: int| 0 <= k < queue@.len() && cname(ds, queue@[k] as int) == nm;
                                    if k < q_before.len() {
                                        assert(q_before[k] == queue@[k]);
                                    }
                                }
                            }
                            assert forall|i: int| class_at(ds, i) && #[trigger] after.contains_key(cname(ds, i)) implies (match parent_of(class_def(ds, i)) {
                                Some(p) => after.contains_key(p),
                                None => true,
                            }) && after[cname(ds, i)] == class_layout(class_def(ds, i), parent_layout(class_def(ds, i), after)) by {
                                if i == d {
                                } else if cname(ds, i) == cl.name.inner@ {
                                    assert(cname(ds, i) != cname(ds, d as int));
                                } else {
                                    assert(before.contains_key(cname(ds, i)));
                                    let k = choose|k: int| 0 <= k < q_before.len() && cname(ds, q_before[k] as int) == cname(ds, i);
                                    if q_before[k] as int != i {
                                        assert(cname(ds, q_before[k] as int) != cname(ds, i));
                                    }
                                    assert(parent_of(class_def(ds, i)) is None);
                                    assert(class_def(ds, i).parent_type is None);
                                }
                            }
                            assert forall|k: int| 0 <= k < queue@.len() implies (queue@[k] as int) < d + 1 && #[trigger] class_at(ds, queue@[k] as int)
                                && parent_of(class_def(ds, queue@[k] as int)) is None by {
                                if k < q_before.len() {
                                    assert(queue@[k] == q_before[k]);
                                    assert(class_at(ds, q_before[k] as int));
                                    assert((q_before[k] as int) < d);
                                    assert(parent_of(class_def(ds, q_before[k] as int)) is None);
                                } else {
                                    assert(queue@[k] == d);
                                    assert(class_at(ds, d as int));
                                    assert(class_def(ds, d as int) == *cl);
                                    assert(parent_of(*cl) is None);
                                }
                            }
                            assert forall|x: int| 0 <= x < d + 1 && #[trigger] class_at(ds, x) && parent_of(class_def(ds, x)) is None implies in_queue(queue@, x) by {
                                if x == d {
                                    assert(queue@[q_before.len() as int] == d);
                                } else {
                                    let k = choose|k: int| 0 <= k < q_before.len() && q_before[k] == x;
                                    assert(queue@[k] == q_before[k]);
                                }
                            }
                        }
                    }
                },
                _ => {},
            }
            proof {
                assert forall|k: int| 0 <= k < queue@.len() implies (#[trigger] queue@[k] as int) < d + 1 by {
                }
                assert forall|k: int| 0 <= k < queue@.len() implies #[trigger] class_at(ds, queue@[k] as int)
                    && parent_of(class_def(ds, queue@[k] as int)) is None by {
                    assert(class_at(ds, queue@[k] as int));
                    assert(parent_of(class_def(ds, queue@[k] as int)) is None);
                }
            }
            d = d + 1;
        }
        proof {
            lemma_distinct_bounded(queue@, n as int);
            assert forall|k: int| 0 <= k < queue@.len() implies #[trigger] class_at(ds, queue@[k] as int) && rooted(ds, queue@[k] as int) by {
                assert(class_at(ds, queue@[k] as int));
                assert(rooted_within(ds, queue@[k] as int, 0));
            }
            assert forall|k: int| 0 <= k < queue@.len() && parent_of(class_def(ds, queue@[k] as int)) is Some implies exists|h: int|
                0 <= h < 0 && #[trigger] cname(ds, queue@[h] as int) == parent_of(class_def(ds, #[trigger] queue@[k] as int))->0 by {
                assert(class_at(ds, queue@[k] as int));
            }
        }
        let mut head: usize = 0;
        while head < queue.len()
            invariant
                n == ds.len(),
                *defs == self.ast.defs,
                ds == defs@,
                class_names_distinct(ds),
                classes_well_formed(ds),
                head <= queue@.len(),
                queue@.len() <= n,
                class_registry.wf(),
                queue@.no_duplicates(),
                forall|k: int| 0 <= k < queue@.len() ==> (#[trigger] queue@[k] as int) < n,
                forall|k: int| 0 <= k < queue@.len() ==> #[trigger] class_at(ds, queue@[k] as int) && rooted(ds, queue@[k] as int),
                forall|k: int| 0 <= k < queue@.len() && parent_of(class_def(ds, queue@[k] as int)) is Some ==> exists|h: int|
                    0 <= h < head && #[trigger] cname(ds, queue@[h] as int) == parent_of(class_def(ds, #[trigger] queue@[k] as int))->0,
                forall|nm: Seq<char>| #[trigger] class_registry.layouts().contains_key(nm) <==>
                    exists|k: int| 0 <= k < queue@.len() && cname(ds, queue@[k] as int) == nm,
                registry_consistent(ds, class_registry.layouts()),
                forall|x: int| #[trigger] class_at(ds, x) && parent_of(class_def(ds, x)) is None ==> in_queue(queue@, x),
                forall|x: int, h: int| #[trigger] class_at(ds, x) && 0 <= h < head && #[trigger] queue@[h] < n
                    && parent_of(class_def(ds, x)) == Some(cname(ds, queue@[h] as int)) ==> in_queue(queue@, x),
            decreases n - head,
        {
            let p_idx = queue[head];
            assert(class_at(ds, p_idx as int));
            let parent_name: &String = match &defs[p_idx] {
                ast::TopDef::ClassDef(pcl) => &pcl.name.inner,
                _ => {
                    proof {
                        assert(false);
                    }
                    return;
                },
            };
            assert(parent_name@ == cname(ds, p_idx as int));
            let ghost q0 = queue@;
            let ghost len0 = queue@.len();
            let ghost fuel0 = choose|f: nat| rooted_within(ds, p_idx as int, f);
            proof {
                assert(rooted(ds, p_idx as int));
                assert forall|k: int| 0 <= k < queue@.len() implies #[trigger] class_at(ds, queue@[k] as int) && rooted(ds, queue@[k] as int) by {
                    assert(class_at(ds, queue@[k] as int));
                }
            }
            let mut dd: usize = 0;
            while dd < n
                invariant
                    n == ds.len(),
                    *defs == self.ast.defs,
                    ds == defs@,
                    class_names_distinct(ds),
                    classes_well_formed(ds),
                    head < len0,
                    len0 <= queue@.len(),
                    queue@.len() <= n,
                    dd <= n,
                    q0.len() == len0,
                    forall|k: int| 0 <= k < len0 ==> #[trigger] queue@[k] == q0[k],
                    p_idx == q0[head as int],
                    parent_name@ == cname(ds, p_idx as int),
                    rooted_within(ds, p_idx as int, fuel0),
                    class_registry.wf(),
                    queue@.no_duplicates(),
                    forall|k: int| 0 <= k < queue@.len() ==> (#[trigger] queue@[k] as int) < n,
                    forall|k: int| len0 <= k < queue@.len() ==> (#[trigger] queue@[k] as int) < dd,
                    forall|k: int| 0 <= k < queue@.len() ==> #[trigger] class_at(ds, queue@[k] as int) && rooted(ds, queue@[k] as int),
                    forall|k: int| 0 <= k < len0 && parent_of(class_def(ds, queue@[k] as int)) is Some ==> exists|h: int|
                        0 <= h < head && #[trigger] cname(ds, queue@[h] as int) == parent_of(class_def(ds, #[trigger] queue@[k] as int))->0,
                    forall|k: int| len0 <= k < queue@.len() ==> parent_of(class_def(ds, #[trigger] queue@[k] as int)) == Some(parent_name@),
                    forall|nm: Seq<char>| #[trigger] class_registry.layouts().contains_key(nm) <==>
                        exists|k: int| 0 <= k < queue@.len() && cname(ds, queue@[k] as int) == nm,
                    registry_consistent(ds, class_registry.layouts()),
                    forall|x: int| #[trigger] class_at(ds, x) && parent_of(class_def(ds, x)) is None ==> in_queue(queue@, x),
                    forall|x: int, h: int| #[trigger] class_at(ds, x) && 0 <= h < head && #[trigger] queue@[h] < n
                        && parent_of(class_def(ds, x)) == Some(cname(ds, queue@[h] as int)) ==> in_queue(queue@, x),
                    forall|x: int| 0 <= x < dd && #[trigger] class_at(ds, x) && parent_of(class_def(ds, x)) == Some(parent_name@) ==> in_queue(queue@, x),
                decreases n - dd,
            {
                let ghost q_iter = queue@;
                match &defs[dd] {
                    ast::TopDef::ClassDef(cl) => {
                        let is_child = match class_parent_name(cl) {
                            Some(p) => crate::text::str_eq(p.as_str(), parent_name.as_str()),
                            None => false,
                        };
                        if is_child {
                            proof {
                                assert(class_at(ds, dd as int));
                                assert(class_def(ds, dd as int) == *cl);
                                assert(parent_of(*cl) == Some(parent_name@));
                            }
                            let ghost before = class_registry.layouts();
                            let ghost q_before = queue@;
                            proof {
                                assert(!in_queue(q_before, dd as int)) by {
                                    if in_queue(q_before, dd as int) {
                                        let k = choose|k: int| 0 <= k < q_before.len() && q_before[k] == dd;
                                        if k < len0 {
                                            assert(class_at(ds, queue@[k] as int));
                                            let h = choose|h: int| 0 <= h < head && #[trigger] cname(ds, queue@[h] as int)
                                                == parent_of(class_def(ds, queue@[k] as int))->0;
                                            assert(cname(ds, queue@[h] as int) == cname(ds, queue@[head as int] as int));
                                            assert(class_at(ds, queue@[h] as int));
                                            assert(queue@[h] == queue@[head as int]);
                                        } else {
                                            assert((queue@[k] as int) < dd);
                                        }
                                    }
                                }
                                assert(!before.contains_key(cl.name.inner@)) by {
                                    if before.contains_key(cl.name.inner@) {
                                        let k = choose|k: int| 0 <= k < q_before.len() && cname(ds, q_before[k] as int) == cl.name.inner@;
                                        assert(cname(ds, dd as int) == cl.name.inner@);
                                        assert(class_at(ds, q_before[k] as int));
                                        assert(q_before[k] != dd);
                                    }
                                }
                                assert(before.contains_key(parent_name@)) by {
                                    assert(class_at(ds, queue@[head as int] as int));
                                    assert(cname(ds, queue@[head as int] as int) == parent_name@);
                                }
                                assert(classes_well_formed(ds) ==> class_at(ds, dd as int));
                            }
                            class_registry.process_class_def(cl);
                            queue.push(dd);
                            proof {
                                lemma_distinct_bounded_push(q_before, dd, n as int);
                                let after = class_registry.layouts();
                                assert(rooted_within(ds, dd as int, fuel0 + 1)) by {
                                    assert(cname(ds, p_idx as int) == parent_name@);
                                }
                                assert forall|k: int| 0 <= k < queue@.len() implies #[trigger] class_at(ds, queue@[k] as int) && rooted(ds, queue@[k] as int) by {
                                    if k < q_before.len() {
                                        assert(queue@[k] == q_before[k]);
                                        assert(class_at(ds, q_before[k] as int));
                                    } else {
                                        assert(queue@[k] == dd);
                                    }
                                }
                                assert forall|nm: Seq<char>| #[trigger] after.contains_key(nm) <==>
                                    exists|k: int| 0 <= k < queue@.len() && cname(ds, queue@[k] as int) == nm by {
                                    if after.contains_key(nm) && nm != cl.name.inner@ {
                                        let k = choose|k: int| 0 <= k < q_before.len() && cname(ds, q_before[k] as int) == nm;
                                        assert(queue@[k] == q_before[k]);
                                    }
                                    if nm == cl.name.inner@ {
                                        assert(cname(ds, queue@[q_before.len() as int] as int) == nm);
                                    }
                                    if exists|k: int| 0 <= k < queue@.len() && cname(ds, queue@[k] as int) == nm {
                                        let k = choose|k: int| 0 <= k < queue@.len() && cname(ds, queue@[k] as int) == nm;
                                        if k < q_before.len() {
                                            assert(q_before[k] == queue@[k]);
                                        }
                                    }
                                }
                                assert forall|i: int| class_at(ds, i) && #[trigger] after.contains_key(cname(ds, i)) implies (match parent_of(class_def(ds, i)) {
                                    Some(p) => after.contains_key(p),
                                    None => true,
                                }) && after[cname(ds, i)] == class_layout(class_def(ds, i), parent_layout(class_def(ds, i), after)) by {
                                    if i == dd {
                                        assert(parent_layout(*cl, after) == parent_layout(*cl, before));
                                    } else if cname(ds, i) == cl.name.inner@ {
                                        assert(cname(ds, i) != cname(ds, dd as int));
                                    } else {
                                        assert(before.contains_key(cname(ds, i)));
                                        match parent_of(class_def(ds, i)) {
                                            Some(pp) => {
                                                assert(before.contains_key(pp));
                                                assert(parent_layout(class_def(ds, i), after) == parent_layout(class_def(ds, i), before));
                                            },
                                            None => {
                                                assert(parent_layout(class_def(ds, i), after) == parent_layout(class_def(ds, i), before));
                                            },
                                        }
                                    }
                                }
                            }
                        }
                    },
                    _ => {},
                }
                proof {
                    assert(queue@.len() >= q_iter.len());
                    assert forall|k: int| 0 <= k < q_iter.len() implies #[trigger] queue@[k] == q_iter[k] by {}
                    assert forall|k: int| 0 <= k < len0 implies #[trigger] queue@[k] == q0[k] by {
                        assert(q_iter[k] == q0[k]);
                    }
                    assert forall|k: int| len0 <= k < queue@.len() implies (#[trigger] queue@[k] as int) < dd + 1 by {
                        if k < q_iter.len() {
                            assert(q_iter[k] == queue@[k]);
                        }
                    }
                    assert forall|k: int| 0 <= k < len0 && parent_of(class_def(ds, queue@[k] as int)) is Some implies exists|h: int|
                        0 <= h < head && #[trigger] cname(ds, queue@[h] as int) == parent_of(class_def(ds, #[trigger] queue@[k] as int))->0 by {
                        assert(q_iter[k] == queue@[k]);
                        let h = choose|h: int| 0 <= h < head && #[trigger] cname(ds, q_iter[h] as int) == parent_of(class_def(ds, q_iter[k] as int))->0;
                        assert(q_iter[h] == queue@[h]);
                    }
                    assert forall|x: int| #[trigger] class_at(ds, x) && parent_of(class_def(ds, x)) is None implies in_queue(queue@, x) by {
                        lemma_in_queue_grow(q_iter, queue@, x);
                    }
                    assert forall|x: int, h: int| #[trigger] class_at(ds, x) && 0 <= h < head && #[trigger] queue@[h] < n
                        && parent_of(class_def(ds, x)) == Some(cname(ds, queue@[h] as int)) implies in_queue(queue@, x) by {
                        assert(q_iter[h] == queue@[h]);
                        lemma_in_queue_grow(q_iter, queue@, x);
                    }
                    assert forall|x: int| 0 <= x < dd + 1 && #[trigger] class_at(ds, x) && parent_of(class_def(ds, x)) == Some(parent_name@) implies in_queue(queue@, x) by {
                        if x < dd {
                            lemma_in_queue_grow(q_iter, queue@, x);
                        } else {
                            assert(queue@[queue@.len() - 1] == dd);
                        }
                    }
                    assert forall|k: int| 0 <= k < queue@.len() implies #[trigger] class_at(ds, queue@[k] as int) && rooted(ds, queue@[k] as int) by {
                        if k < q_iter.len() {
                            assert(q_iter[k] == queue@[k]);
                            assert(class_at(ds, q_iter[k] as int));
                        }
                    }
                    assert forall|k: int| len0 <= k < queue@.len() implies parent_of(class_def(ds, #[trigger] queue@[k] as int)) == Some(parent_name@) by {
                        if k < q_iter.len() {
                            assert(q_iter[k] == queue@[k]);
                        }
                    }
                }
                dd = dd + 1;
            }
            proof {
                assert forall|k: int| 0 <= k < queue@.len() && parent_of(class_def(ds, queue@[k] as int)) is Some implies exists|h: int|
                    0 <= h < head + 1 && #[trigger] cname(ds, queue@[h] as int) == parent_of(class_def(ds, #[trigger] queue@[k] as int))->0 by {
                    if k < len0 {
                        let h = choose|h: int| 0 <= h < head && #[trigger] cname(ds, queue@[h] as int) == parent_of(class_def(ds, queue@[k] as int))->0;
                    } else {
                        assert(queue@[head as int] == q0[head as int]);
                        assert(cname(ds, queue@[head as int] as int) == parent_name@);
                    }
                }
                assert forall|x: int, h: int| #[trigger] class_at(ds, x) && 0 <= h < head + 1 && #[trigger] queue@[h] < n
                    && parent_of(class_def(ds, x)) == Some(cname(ds, queue@[h] as int)) implies in_queue(queue@, x) by {
                    if h == head {
                        assert(queue@[h] == q0[h]);
                    }
                }
            }
            head = head + 1;
        }
        proof {
            assert forall|nm: Seq<char>| #[trigger] class_registry.layouts().contains_key(nm) <==> rooted_names(ds).contains(nm) by {
                if class_registry.layouts().contains_key(nm) {
                    let k = choose|k: int| 0 <= k < queue@.len() && cname(ds, queue@[k] as int) == nm;
                    assert(class_at(ds, queue@[k] as int));
                    assert(rooted(ds, queue@[k] as int));
                }
                if rooted_names(ds).contains(nm) {
                    let i = choose|i: int| rooted(ds, i) && cname(ds, i) == nm;
                    let f = choose|f: nat| rooted_within(ds, i, f);
                    lemma_rooted_in_queue(ds, queue@, i, f);
                    let k = choose|k: int| 0 <= k < queue@.len() && queue@[k] == i;
                }
            }
            assert(class_registry.layouts().dom() =~= rooted_names(ds));
        }
    }
}

/// Whatever a queue holds, it still holds once more is added at its end.
proof fn lemma_in_queue_grow(a: Seq<usize>, b: Seq<usize>, x: int)
    requires
        a.len() <= b.len(),
        forall|k: int| 0 <= k < a.len() ==> #[trigger] b[k] == a[k],
        in_queue(a, x),
    ensures
        in_queue(b, x),
{
    let k = choose|k: int| 0 <= k < a.len() && a[k] == x;
    assert(b[k] == a[k]);
}

/// Adding a number below `n` that a list of distinct numbers below `n` lacks keeps them
/// distinct and at most `n` of them.
proof fn lemma_distinct_bounded_push(q: Seq<usize>, x: usize, n: int)
    requires
        q.no_duplicates(),
        forall|k: int| 0 <= k < q.len() ==> (q[k] as int) < n,
        !in_queue(q, x as int),
        (x as int) < n,
    ensures
        q.push(x).no_duplicates(),
        q.push(x).len() <= n,
{
    let r = q.push(x);
    assert forall|a: int, b: int| 0 <= a < r.len() && 0 <= b < r.len() && a != b implies r[a] != r[b] by {
        if a < q.len() && b < q.len() {
            assert(q[a] != q[b]);
        } else if a < q.len() {
            assert(r[a] == q[a]);
        } else if b < q.len() {
            assert(r[b] == q[b]);
        }
    }
    lemma_distinct_bounded(r, n);
}


/// The structs of a program are the layouts of the classes `layouts`, one per class.
pub open spec fn structs_match(structs: Seq<ir::Struct>, layouts: Map<Seq<char>, LayoutModel>) -> bool {
    &&& structs.len() == layouts.dom().len()
    &&& forall|i: int| 0 <= i < structs.len() ==> layouts.contains_key((#[trigger] structs[i]).name@)
            && struct_matches(structs[i], structs[i].name@, layouts[structs[i].name@])
    &&& forall|i: int, j: int| 0 <= i < structs.len() && 0 <= j < structs.len() && i != j
            ==> (#[trigger] structs[i]).name@ != (#[trigger] structs[j]).name@
}

impl<'a> CodeGen<'a> {
    /// The IR of the whole program: the layout of every class whose chain of superclasses ends
    /// at a parentless class, the code of every function and method in the order of the
    /// definitions, and the global strings they use. Fails where a function cannot be generated.
    pub fn generate_ir(&self) -> (res: Option<ir::Program>)
        requires
            self.global_context().wf(),
            class_names_distinct(self.program().defs@),
            classes_well_formed(self.program().defs@),
        ensures
            program_cg_ok(self.global_context().functions(), self.program().defs@) ==> res is Some,
            res matches Some(p) ==> bodies_generated(p.functions@, generated_functions(self.program().defs@)),
            res matches Some(p) ==> functions_generated(p.functions@, generated_functions(self.program().defs@))
                && strings_wf(p.global_strings)
                && exists|layouts: Map<Seq<char>, LayoutModel>| layouts.dom() == rooted_names(self.program().defs@)
                    && registry_consistent(self.program().defs@, layouts)
                    && #[trigger] structs_match(p.structs@, layouts),
    {
        let mut prog_ir = ir::Program {
            structs: Vec::new(),
            functions: Vec::new(),
            global_strings: NameMap::new(),
        };
        let mut class_registry = ClassRegistry::new();
        self.calculate_class_registry(&mut class_registry);
        if !self.generate_functions_ir(&mut prog_ir, &class_registry) {
            return None;
        }
        let ghost layouts = class_registry.layouts();
        let ghost names = class_registry.names();
        proof {
            class_registry.lemma_names();
        }
        class_registry.insert_classes_ir_into(&mut prog_ir);
        proof {
            let gen = generated_functions(self.ast.defs@);
            assert forall|i: int| 0 <= i < prog_ir.functions@.len() implies function_wf(#[trigger] prog_ir.functions@[i])
                && signature_matches(prog_ir.functions@[i], gen[i]) && first_return_kept(prog_ir.functions@[i], gen[i]) by {
                assert(prog_ir.functions@[0 + i] == prog_ir.functions@[i]);
            }
            let st = prog_ir.structs@;
            assert forall|i: int| 0 <= i < st.len() implies layouts.contains_key((#[trigger] st[i]).name@)
                && struct_matches(st[i], st[i].name@, layouts[st[i].name@]) by {
                assert(st[0 + i] == st[i]);
                assert(names.contains(names[i]));
            }
            assert forall|i: int, j: int| 0 <= i < st.len() && 0 <= j < st.len() && i != j
                implies (#[trigger] st[i]).name@ != (#[trigger] st[j]).name@ by {
                assert(st[0 + i] == st[i]);
                assert(st[0 + j] == st[j]);
            }
            assert(structs_match(st, layouts));
        }
        Some(prog_ir)
    }
}


/// Whether no two classes share a name.
pub fn check_class_names_distinct(defs: &Vec<ast::TopDef>) -> (res: bool)
    ensures
        res == class_names_distinct(defs@),
{
    let mut i: usize = 0;
    while i < defs.len()
        invariant
            i <= defs@.len(),
            forall|a: int, b: int| 0 <= a < i && class_at(defs@, a) && class_at(defs@, b) && a != b
                ==> #[trigger] cname(defs@, a) != #[trigger] cname(defs@, b),
        decreases defs@.len() - i,
    {
        match &defs[i] {
            ast::TopDef::ClassDef(a) => {
                let mut j: usize = 0;
                while j < defs.len()
                    invariant
                        i < defs@.len(),
                        j <= defs@.len(),
                        class_at(defs@, i as int),
                        cname(defs@, i as int) == a.name.inner@,
                        forall|b: int| 0 <= b < j && class_at(defs@, b) && b != i ==> cname(defs@, i as int) != #[trigger] cname(defs@, b),
                    decreases defs@.len() - j,
                {
                    if j != i {
                        match &defs[j] {
                            ast::TopDef::ClassDef(b) => {
                                if crate::text::str_eq(a.name.inner.as_str(), b.name.inner.as_str()) {
                                    assert(class_at(defs@, j as int) && cname(defs@, j as int) == cname(defs@, i as int));
                                    return false;
                                }
                            },
                            _ => {},
                        }
                    }
                    j = j + 1;
                }
            },
            _ => {},
        }
        i = i + 1;
    }
    true
}

/// Whether no member of a class is malformed.
fn class_items_ok(cl: &ast::ClassDef) -> (res: bool)
    ensures
        res == forall|k: int| 0 <= k < cl.items@.len() ==> !((#[trigger] cl.items@[k]).inner is Error),
{
    let mut k: usize = 0;
    while k < cl.items.len()
        invariant
            k <= cl.items@.len(),
            forall|y: int| 0 <= y < k ==> !((#[trigger] cl.items@[y]).inner is Error),
        decreases cl.items@.len() - k,
    {
        match &cl.items[k].inner {
            ast::InnerClassItemDef::Error => {
                return false;
            },
            _ => {},
        }
        k = k + 1;
    }
    true
}

/// Whether every declared superclass is written as a class type and no class member is malformed.
pub fn check_classes_well_formed(defs: &Vec<ast::TopDef>) -> (res: bool)
    ensures
        res == classes_well_formed(defs@),
{
    let mut i: usize = 0;
    while i < defs.len()
        invariant
            i <= defs@.len(),
            forall|x: int| 0 <= x < i && #[trigger] class_at(defs@, x) ==> (match class_def(defs@, x).parent_type {
                Some(t) => t.inner@ is Class,
                None => true,
            }) && forall|k: int| 0 <= k < class_def(defs@, x).items@.len()
                ==> !((#[trigger] class_def(defs@, x).items@[k]).inner is Error),
        decreases defs@.len() - i,
    {
        match &defs[i] {
            ast::TopDef::ClassDef(cl) => {
                assert(class_def(defs@, i as int) == *cl);
                match &cl.parent_type {
                    Some(t) => match &t.inner {
                        ast::InnerType::Class(_) => {},
                        _ => {
                            assert(class_at(defs@, i as int));
                            return false;
                        },
                    },
                    None => {},
                }
                if !class_items_ok(cl) {
                    assert(class_at(defs@, i as int));
                    return false;
                }
            },
            _ => {},
        }
        i = i + 1;
    }
    true
}

/// The LLVM types of parameters of the given source types, separated by commas.
pub open spec fn param_types_text(ts: Seq<ast::TypeModel>) -> Seq<char>
    decreases ts.len(),
{
    if ts.len() == 0 {
        Seq::empty()
    } else {
        param_types_text(ts.drop_last()) + (if ts.len() > 1 { ", "@ } else { ""@ })
            + llvm_type_text(ir::spec_from_ast(ts.last()))
    }
}

/// How LLVM declares a function defined elsewhere with the signature `f`: its result type, its
/// name and its parameter types, on a line of its own.
pub open spec fn declaration_text(f: FunModel) -> Seq<char> {
    "declare "@ + llvm_type_text(ir::spec_from_ast(f.ret)) + " @"@ + f.name + "("@ + param_types_text(f.args) + ")\n"@
}

/// `w` stands somewhere in `s`.
pub open spec fn holds_text(s: Seq<char>, w: Seq<char>) -> bool {
    exists|i: int| 0 <= i && i + w.len() <= s.len() && #[trigger] s.subrange(i, i + w.len()) == w
}

proof fn lemma_prefix_holds(a: Seq<char>, b: Seq<char>, i: int, w: Seq<char>)
    requires
        0 <= i,
        i + w.len() <= a.len(),
        a.subrange(i, i + w.len()) == w,
    ensures
        holds_text(a + b, w),
{
    assert((a + b).subrange(i, i + w.len()) =~= a.subrange(i, i + w.len()));
}

/// Every function of the runtime library, which programs call without defining it, is declared
/// in the text of every program with the LLVM types of its result and its parameters, so that a
/// call of it in the text refers to a declared function of that type.
pub proof fn lemma_runtime_functions_declared(p: ir::Program, name: Seq<char>)
    requires
        builtin_functions().contains_key(name),
    ensures
        holds_text(program_text(p), declaration_text(builtin_functions()[name])),
{
    reveal_strlit("declare void @printInt(i32)\ndeclare void @printString(i8*)\ndeclare void @error()\ndeclare i32 @readInt()\ndeclare i8* @readString()\n\n");
    reveal_strlit("declare ");
    reveal_strlit(" @");
    reveal_strlit("(");
    reveal_strlit(")\n");
    reveal_strlit("void");
    reveal_strlit("i32");
    reveal_strlit("i8");
    reveal_strlit("*");
    reveal_strlit("i8*");
    reveal_strlit("");
    reveal_strlit("printInt");
    reveal_strlit("printString");
    reveal_strlit("error");
    reveal_strlit("readInt");
    reveal_strlit("readString");
    reveal_with_fuel(llvm_type_text, 2);
    reveal_with_fuel(param_types_text, 2);
    let r = runtime_declarations();
    let rest = program_text(p).subrange(r.len() as int, program_text(p).len() as int);
    assert(program_text(p) =~= r + rest);
    let f = builtin_functions()[name];
    let w = declaration_text(f);
    let i: int = if name == "printInt"@ {
        0
    } else if name == "printString"@ {
        28
    } else if name == "error"@ {
        59
    } else if name == "readInt"@ {
        81
    } else {
        104
    };
    assert(param_types_text(seq![ast::TypeModel::Int]) =~= "i32"@) by {
        assert(seq![ast::TypeModel::Int].drop_last() =~= Seq::<ast::TypeModel>::empty());
    }
    assert(param_types_text(seq![ast::TypeModel::Str]) =~= "i8*"@) by {
        assert(seq![ast::TypeModel::Str].drop_last() =~= Seq::<ast::TypeModel>::empty());
    }
    assert(r.subrange(i, i + w.len()) =~= w);
    lemma_prefix_holds(r, rest, i, w);
}

/// What stands in a text stands in any longer text that starts with it.
proof fn lemma_holds_in_prefix(a: Seq<char>, b: Seq<char>, w: Seq<char>)
    requires
        holds_text(a, w),
    ensures
        holds_text(a + b, w),
{
    let i = choose|i: int| 0 <= i && i + w.len() <= a.len() && #[trigger] a.subrange(i, i + w.len()) == w;
    lemma_prefix_holds(a, b, i, w);
}

/// What stands in a text stands in any longer text that ends with it.
proof fn lemma_holds_in_suffix(a: Seq<char>, b: Seq<char>, w: Seq<char>)
    requires
        holds_text(b, w),
    ensures
        holds_text(a + b, w),
{
    let i = choose|i: int| 0 <= i && i + w.len() <= b.len() && #[trigger] b.subrange(i, i + w.len()) == w;
    assert((a + b).subrange(a.len() + i, a.len() + i + w.len()) =~= b.subrange(i, i + w.len()));
}

/// Each function stands in the text of a list of functions.
proof fn lemma_function_in_functions_text(fs: Seq<ir::Function>, j: int)
    requires
        0 <= j < fs.len(),
    ensures
        holds_text(functions_text(fs), function_text(fs[j])),
    decreases fs.len(),
{
    if j == fs.len() - 1 {
        let a = functions_text(fs.drop_last());
        let w = function_text(fs[j]);
        assert((a + w).subrange(a.len() as int, (a.len() + w.len()) as int) =~= w);
    } else {
        lemma_function_in_functions_text(fs.drop_last(), j);
        assert(fs.drop_last()[j] == fs[j]);
        lemma_holds_in_prefix(functions_text(fs.drop_last()), function_text(fs.last()), function_text(fs[j]));
    }
}

/// Every function of a program is defined in the program's text, with its result type, name,
/// parameters and blocks, so that a call of it in the text refers to a defined function.
pub proof fn lemma_functions_defined(p: ir::Program, j: int)
    requires
        0 <= j < p.functions@.len(),
    ensures
        holds_text(program_text(p), function_text(p.functions@[j])),
{
    lemma_function_in_functions_text(p.functions@, j);
    let a = runtime_declarations() + global_strings_text(p.global_strings.entries()) + "\n\n"@;
    lemma_holds_in_suffix(a, functions_text(p.functions@), function_text(p.functions@[j]));
}

/// Each string constant stands in the text of a list of them.
proof fn lemma_string_in_strings_text(es: Seq<(String, GlobalStrNum)>, j: int)
    requires
        0 <= j < es.len(),
    ensures
        holds_text(global_strings_text(es), global_string_text(es[j].0@, es[j].1)),
    decreases es.len(),
{
    if j == es.len() - 1 {
        let a = global_strings_text(es.drop_last());
        let w = global_string_text(es[j].0@, es[j].1);
        assert((a + w).subrange(a.len() as int, (a.len() + w.len()) as int) =~= w);
    } else {
        lemma_string_in_strings_text(es.drop_last(), j);
        assert(es.drop_last()[j] == es[j]);
        lemma_holds_in_prefix(global_strings_text(es.drop_last()), global_string_text(es.last().0@, es.last().1),
            global_string_text(es[j].0@, es[j].1));
    }
}

/// Every string constant of a program is declared in the program's text, with its bytes and
/// its terminating zero, so that a use of it in the text refers to a declared constant.
pub proof fn lemma_strings_declared(p: ir::Program, j: int)
    requires
        0 <= j < p.global_strings.entries().len(),
    ensures
        holds_text(program_text(p), global_string_text(p.global_strings.entries()[j].0@, p.global_strings.entries()[j].1)),
{
    let es = p.global_strings.entries();
    lemma_string_in_strings_text(es, j);
    let w = global_string_text(es[j].0@, es[j].1);
    lemma_holds_in_suffix(runtime_declarations(), global_strings_text(es), w);
    lemma_holds_in_prefix(runtime_declarations() + global_strings_text(es), "\n\n"@, w);
    lemma_holds_in_prefix(runtime_declarations() + global_strings_text(es) + "\n\n"@, functions_text(p.functions@), w);
}

} // verus!
