use vstd::prelude::*;
use crate::frontend_error::{ErrorAccumulation, FrontendError, FrontendResult, errors_of, ok_if_no_error};
use crate::model::ast::{
    BinaryOp, Block, Expr, FunDef, Ident, InnerExpr, InnerStmt, InnerType, InnerUnaryOp, ItemWithSpan,
    Span, Type, TypeModel, THIS_VAR, inner_type_eq,
};
use crate::name_map::NameMap;
use crate::semantics::global_context::{
    ClassDesc, ClassModel, FunDesc, FunModel, GlobalContext, ItemModel, TypeWrapper, all_types_ok,
    chain_ok, class_types_ok, compat_defined, compatible, desc_chain_ok, fun_types_ok, hierarchy_ok,
    item_of, item_ok, item_within, local_var_type_error, one_error, single_error, ScanModel,
    checked_parent, ret_type_error, desc_fuel, parent_name,
};
use crate::semantics::typing::{block_returns, stmt_returns, stmts_return, body_result, function_ok, params_fold, params_state, check_ok, BlockResult, StState, add_var, block_result, decl_fold, stmt_step, stmts_fold, FcModel, LvKind, Scopes, args_fit, binop_type, expr_type, fun_lookup, lv_kind, lv_kind_after_check, lvalue_ok, unop_type, var_lookup, rewritten, converted, args_rewritten, is_this_at, decl_rewritten, block_rewritten, stmts_rewritten, stmt_rewritten, fun_rewritten};
use crate::text::{append_str, str_eq};

verus! {

/// Every class that the type names is defined.
pub open spec fn type_valid(classes: Map<Seq<char>, ClassModel>, t: TypeModel) -> bool
    decreases t,
{
    match t {
        TypeModel::Array(sub) => type_valid(classes, *sub),
        TypeModel::Class(n) => classes.contains_key(n),
        _ => true,
    }
}

/// The declarations the body is checked against passed their own checks.
pub open spec fn fc_checked(fc: FcModel) -> bool {
    &&& hierarchy_ok(fc.classes)
    &&& forall|k: Seq<char>| #[trigger] fc.functions.contains_key(k) ==> fun_types_ok(fc.classes, fc.functions[k])
    &&& forall|k: Seq<char>| #[trigger] fc.classes.contains_key(k) ==> class_types_ok(fc.classes, fc.classes[k])
    &&& fc.class_ctx matches Some(c) ==> fc.classes.contains_key(c.name) && fc.classes[c.name] == c
}

/// Every local variable has a valid type.
pub open spec fn scopes_valid(classes: Map<Seq<char>, ClassModel>, scopes: Scopes) -> bool {
    forall|i: int, k: Seq<char>| 0 <= i < scopes.len() && #[trigger] scopes[i].contains_key(k) ==> type_valid(classes, scopes[i][k])
}

/// A type with no invalid part is valid.
pub proof fn lemma_local_ok_valid(classes: Map<Seq<char>, ClassModel>, t: TypeModel)
    requires
        local_var_type_error(classes, t) is None,
    ensures
        type_valid(classes, t),
    decreases t,
{
    if let TypeModel::Array(sub) = t {
        lemma_local_ok_valid(classes, *sub);
    }
}

/// With every class reaching the top, a valid type on the right meets every subclass test.
pub proof fn lemma_valid_compat_defined(classes: Map<Seq<char>, ClassModel>, lhs: TypeModel, rhs: TypeModel)
    requires
        hierarchy_ok(classes),
        type_valid(classes, rhs),
    ensures
        compat_defined(classes, lhs, rhs),
    decreases lhs,
{
    match (lhs, rhs) {
        (TypeModel::Array(l), TypeModel::Array(r)) => lemma_valid_compat_defined(classes, *l, *r),
        (TypeModel::Class(_), TypeModel::Class(sub)) => {
            assert(classes.contains_key(sub));
        },
        _ => {},
    }
}

/// A member found from a class comes from that class or one of the known classes.
pub proof fn lemma_item_within_source(classes: Map<Seq<char>, ClassModel>, c: ClassModel, name: Seq<char>, fuel: nat)
    ensures
        item_within(classes, c, name, fuel) matches Some(w) ==> (c.items.contains_key(name) && c.items[name] == w)
            || exists|k: Seq<char>| #[trigger] classes.contains_key(k) && classes[k].items.contains_key(name) && classes[k].items[name] == w,
    decreases fuel,
{
    if !c.items.contains_key(name) {
        if let Some(p) = parent_name(c) {
            if fuel > 0 && classes.contains_key(p) {
                lemma_item_within_source(classes, classes[p], name, (fuel - 1) as nat);
            }
        }
    }
}

/// In checked declarations, every member that a known class has or inherits is valid.
pub proof fn lemma_item_of_valid(fc: FcModel, c: ClassModel, name: Seq<char>)
    requires
        fc_checked(fc),
        fc.classes.contains_key(c.name),
        fc.classes[c.name] == c,
    ensures
        item_of(fc.classes, c, name) matches Some(ItemModel::Var(t)) ==> type_valid(fc.classes, t),
        item_of(fc.classes, c, name) matches Some(ItemModel::Fun(f)) ==> fun_types_ok(fc.classes, f),
{
    lemma_item_within_source(fc.classes, c, name, desc_fuel(fc.classes, c));
    if let Some(w) = item_of(fc.classes, c, name) {
        let k = if c.items.contains_key(name) && c.items[name] == w {
            c.name
        } else {
            choose|k: Seq<char>| #[trigger] fc.classes.contains_key(k) && fc.classes[k].items.contains_key(name) && fc.classes[k].items[name] == w
        };
        assert(fc.classes.contains_key(k));
        assert(class_types_ok(fc.classes, fc.classes[k]));
        assert(fc.classes[k].items.contains_key(name));
        assert(item_ok(fc.classes, name, w, checked_parent(fc.classes, fc.classes[k])));
        if let ItemModel::Var(t) = w {
            lemma_local_ok_valid(fc.classes, t);
        }
    }
}

/// A known class reaches the top of its hierarchy from its superclass.
pub proof fn lemma_known_desc_chain(classes: Map<Seq<char>, ClassModel>, c: ClassModel)
    requires
        hierarchy_ok(classes),
        classes.contains_key(c.name),
        classes[c.name] == c,
    ensures
        exists|f: nat| desc_chain_ok(classes, c, f),
{
    let f = choose|f: nat| chain_ok(classes, c.name, f);
    assert(chain_ok(classes, c.name, f));
    assert(desc_chain_ok(classes, c, f));
}

/// A valid return type is `void` or a valid type.
pub proof fn lemma_ret_ok_valid(classes: Map<Seq<char>, ClassModel>, t: TypeModel)
    requires
        ret_type_error(classes, t) is None,
    ensures
        type_valid(classes, t),
{
    if !(t is Void) {
        lemma_local_ok_valid(classes, t);
    }
}

/// Variables found by a lookup have valid types.
pub proof fn lemma_var_lookup_valid(fc: FcModel, scopes: Scopes, name: Seq<char>)
    requires
        fc_checked(fc),
        scopes_valid(fc.classes, scopes),
    ensures
        var_lookup(fc, scopes, name) matches Ok((t, _)) ==> type_valid(fc.classes, t),
    decreases scopes.len(),
{
    if scopes.len() > 0 {
        if scopes.last().contains_key(name) {
            assert(scopes[scopes.len() - 1].contains_key(name));
        } else {
            assert(scopes_valid(fc.classes, scopes.drop_last())) by {
                assert forall|i: int, k: Seq<char>| 0 <= i < scopes.drop_last().len() && #[trigger] scopes.drop_last()[i].contains_key(k)
                    implies type_valid(fc.classes, scopes.drop_last()[i][k]) by {
                    assert(scopes.drop_last()[i] == scopes[i]);
                }
            }
            lemma_var_lookup_valid(fc, scopes.drop_last(), name);
        }
    } else {
        if let Some(c) = fc.class_ctx {
            lemma_item_of_valid(fc, c, name);
        }
    }
}

/// Functions found by a lookup have valid signatures.
pub proof fn lemma_fun_lookup_valid(fc: FcModel, scopes: Scopes, name: Seq<char>)
    requires
        fc_checked(fc),
    ensures
        fun_lookup(fc, scopes, name) matches Ok((f, _)) ==> fun_types_ok(fc.classes, f),
    decreases scopes.len(),
{
    if scopes.len() > 0 {
        if !scopes.last().contains_key(name) {
            lemma_fun_lookup_valid(fc, scopes.drop_last(), name);
        }
    } else {
        if let Some(c) = fc.class_ctx {
            lemma_item_of_valid(fc, c, name);
        }
    }
}

/// The expression holds no inserted conversion, and no type written in it mentions `null`.
pub open spec fn expr_clean(e: InnerExpr) -> bool
    decreases e,
{
    match e {
        InnerExpr::CastType(_, _) => false,
        InnerExpr::FunCall { args, .. } => args_clean(args@),
        InnerExpr::BinaryOp(lhs, _, rhs) => expr_clean(lhs.inner) && expr_clean(rhs.inner),
        InnerExpr::UnaryOp(_, sub) => expr_clean(sub.inner),
        InnerExpr::NewArray { elem_type, elem_cnt } => !crate::semantics::global_context::has_null(elem_type.inner@)
            && expr_clean(elem_cnt.inner),
        InnerExpr::ArrayElem { array, index } => expr_clean(array.inner) && expr_clean(index.inner),
        InnerExpr::NewObject(t) => !crate::semantics::global_context::has_null(t.inner@),
        InnerExpr::ObjField { obj, is_obj_an_array, .. } => is_obj_an_array is None && expr_clean(obj.inner),
        InnerExpr::ObjMethodCall { obj, args, .. } => expr_clean(obj.inner) && args_clean(args@),
        _ => true,
    }
}

pub open spec fn args_clean(args: Seq<Box<Expr>>) -> bool
    decreases args,
{
    if args.len() == 0 {
        true
    } else {
        args_clean(args.drop_last()) && expr_clean(args.last().inner)
    }
}

/// The statement holds no part that failed to parse, no inserted conversion, and no
/// declared type that mentions `null`.
pub open spec fn stmt_clean(s: InnerStmt) -> bool
    decreases s,
{
    match s {
        InnerStmt::Empty => true,
        InnerStmt::Block(bl) => block_clean(bl),
        InnerStmt::Decl { var_type, var_items } => !crate::semantics::global_context::has_null(var_type.inner@)
            && decl_items_clean(var_items@),
        InnerStmt::Assign(lhs, rhs) => expr_clean(lhs.inner) && expr_clean(rhs.inner),
        InnerStmt::Incr(e) | InnerStmt::Decr(e) => expr_clean(e.inner),
        InnerStmt::Ret(opt) => match opt {
            Some(e) => expr_clean(e.inner),
            None => true,
        },
        InnerStmt::Cond { cond, true_branch, false_branch } => expr_clean(cond.inner) && block_clean(true_branch)
            && match false_branch {
            Some(bl) => block_clean(bl),
            None => true,
        },
        InnerStmt::While(cond, body) => expr_clean(cond.inner) && block_clean(body),
        InnerStmt::ForEach { iter_type, array, body, .. } => !crate::semantics::global_context::has_null(iter_type.inner@)
            && expr_clean(array.inner) && block_clean(body),
        InnerStmt::Expr(e) => expr_clean(e.inner),
        InnerStmt::Error => false,
    }
}

pub open spec fn decl_items_clean(items: Seq<(Ident, Option<Box<Expr>>)>) -> bool {
    forall|i: int| 0 <= i < items.len() ==> match #[trigger] items[i].1 {
        Some(e) => expr_clean(e.inner),
        None => true,
    }
}

pub open spec fn block_clean(b: Block) -> bool
    decreases b,
{
    stmts_clean(b.stmts@)
}

pub open spec fn stmts_clean(stmts: Seq<Box<crate::model::ast::Stmt>>) -> bool
    decreases stmts,
{
    if stmts.len() == 0 {
        true
    } else {
        stmts_clean(stmts.drop_last()) && stmt_clean(stmts.last().inner)
    }
}

proof fn lemma_stmts_clean_index(stmts: Seq<Box<crate::model::ast::Stmt>>, i: int)
    requires
        stmts_clean(stmts),
        0 <= i < stmts.len(),
    ensures
        stmt_clean(stmts[i].inner),
    decreases stmts.len(),
{
    if i < stmts.len() - 1 {
        lemma_stmts_clean_index(stmts.drop_last(), i);
        assert(stmts.drop_last()[i] == stmts[i]);
    }
}

/// Declaring variables leaves definedness as it was.
proof fn lemma_decl_fold_defined(fc: FcModel, st: StState, t: TypeModel, corr: bool, items: Seq<(Ident, Option<Box<Expr>>)>)
    ensures
        decl_fold(fc, st, t, corr, items).defined == st.defined,
    decreases items.len(),
{
    if items.len() > 0 {
        lemma_decl_fold_defined(fc, st, t, corr, items.drop_last());
    }
}

/// Where a declaration has no error, each initial value is checked without error in the
/// scope where its own name is declared, and so is every prefix of the declaration.
proof fn lemma_decl_ok_index(fc: FcModel, st: StState, t: TypeModel, corr: bool, items: Seq<(Ident, Option<Box<Expr>>)>, k: int)
    requires
        decl_fold(fc, st, t, corr, items).ok,
        0 <= k < items.len(),
    ensures
        decl_fold(fc, st, t, corr, items.take(k + 1)).ok,
        items[k].1 matches Some(e) ==> check_ok(fc, decl_fold(fc, st, t, corr, items.take(k + 1)).scopes, e.inner, t),
    decreases items.len(),
{
    if k < items.len() - 1 {
        lemma_decl_ok_index(fc, st, t, corr, items.drop_last(), k);
        assert(items.drop_last().take(k + 1) =~= items.take(k + 1));
        assert(items.drop_last()[k] == items[k]);
    } else {
        assert(items.take(k + 1) =~= items);
        assert(items.drop_last() =~= items.take(k));
    }
}

/// A declaration without error starts from a state without error.
proof fn lemma_decl_fold_ok(fc: FcModel, st: StState, t: TypeModel, corr: bool, items: Seq<(Ident, Option<Box<Expr>>)>)
    ensures
        decl_fold(fc, st, t, corr, items).ok ==> st.ok,
    decreases items.len(),
{
    if items.len() > 0 {
        lemma_decl_fold_ok(fc, st, t, corr, items.drop_last());
    }
}

/// A statement without error starts from a state without error.
proof fn lemma_step_ok(fc: FcModel, ret: TypeModel, st: StState, s: InnerStmt)
    ensures
        stmt_step(fc, ret, st, s).ok ==> st.ok,
{
    if let InnerStmt::Decl { var_type, var_items } = s {
        let corr = local_var_type_error(fc.classes, var_type.inner@) is None;
        let st1 = if corr { st } else { StState { ok: false, ..st } };
        lemma_decl_fold_ok(fc, st1, var_type.inner@, corr, var_items@);
    }
}

/// Where statements have no error, neither has any prefix of them, nor the statement after it.
proof fn lemma_fold_ok_prefix(fc: FcModel, ret: TypeModel, st: StState, stmts: Seq<Box<crate::model::ast::Stmt>>, k: int)
    requires
        0 <= k <= stmts.len(),
        stmts_fold(fc, ret, st, stmts).ok,
    ensures
        stmts_fold(fc, ret, st, stmts.take(k)).ok,
        k < stmts.len() ==> stmt_step(fc, ret, stmts_fold(fc, ret, st, stmts.take(k)), stmts[k].inner).ok,
    decreases stmts.len(),
{
    if stmts.len() > 0 {
        lemma_step_ok(fc, ret, stmts_fold(fc, ret, st, stmts.drop_last()), stmts.last().inner);
        if k < stmts.len() {
            lemma_fold_ok_prefix(fc, ret, st, stmts.drop_last(), k);
            assert(stmts.drop_last().take(k) =~= stmts.take(k));
            if k < stmts.len() - 1 {
                assert(stmts.drop_last()[k] == stmts[k]);
            } else {
                assert(stmts.take(k) =~= stmts.drop_last());
            }
        } else {
            assert(stmts.take(k) =~= stmts);
        }
    }
}

/// A statement that the checker is defined on leaves it defined on what came before.
proof fn lemma_step_defined(fc: FcModel, ret: TypeModel, st: StState, s: InnerStmt)
    ensures
        stmt_step(fc, ret, st, s).defined ==> st.defined,
{
    if let InnerStmt::Decl { var_type, var_items } = s {
        let corr = local_var_type_error(fc.classes, var_type.inner@) is None;
        let st1 = if corr { st } else { StState { ok: false, ..st } };
        lemma_decl_fold_defined(fc, st1, var_type.inner@, corr, var_items@);
    }
}

/// If the checker is defined on all statements, it is defined on every prefix.
proof fn lemma_fold_defined_prefix(fc: FcModel, ret: TypeModel, st: StState, stmts: Seq<Box<crate::model::ast::Stmt>>, k: int)
    requires
        0 <= k <= stmts.len(),
        stmts_fold(fc, ret, st, stmts).defined,
    ensures
        stmts_fold(fc, ret, st, stmts.take(k)).defined,
        k < stmts.len() ==> stmt_step(fc, ret, stmts_fold(fc, ret, st, stmts.take(k)), stmts[k].inner).defined,
    decreases stmts.len(),
{
    if stmts.len() > 0 {
        lemma_step_defined(fc, ret, stmts_fold(fc, ret, st, stmts.drop_last()), stmts.last().inner);
        if k < stmts.len() {
            lemma_fold_defined_prefix(fc, ret, st, stmts.drop_last(), k);
            assert(stmts.drop_last().take(k) =~= stmts.take(k));
            if k < stmts.len() - 1 {
                assert(stmts.drop_last()[k] == stmts[k]);
            } else {
                assert(stmts.take(k) =~= stmts.drop_last());
            }
        } else {
            assert(stmts.take(k) =~= stmts);
        }
    }
}

/// Declaring variables leaves whether every path has returned as it was.
proof fn lemma_decl_fold_after_ret(fc: FcModel, st: StState, t: TypeModel, corr: bool, items: Seq<(Ident, Option<Box<Expr>>)>)
    ensures
        decl_fold(fc, st, t, corr, items).after_ret == st.after_ret,
    decreases items.len(),
{
    if items.len() > 0 {
        lemma_decl_fold_after_ret(fc, st, t, corr, items.drop_last());
    }
}

/// Where checking a block finds no error, it finds that every path through the block returns
/// exactly where some statement of the block returns on every path through it.
pub proof fn lemma_block_result_returns(fc: FcModel, scopes: Scopes, ret: TypeModel, b: Block)
    ensures
        block_result(fc, scopes, ret, b).ok ==> block_result(fc, scopes, ret, b).after_ret == block_returns(b),
    decreases b,
{
    lemma_stmts_fold_returns(fc, ret, StState { scopes: scopes.push(Map::empty()), after_ret: false, ok: true, defined: true }, b.stmts@);
}

/// Checking statements without error finds that every path has returned after them exactly
/// where it had before them or one of them returns on every path.
proof fn lemma_stmts_fold_returns(fc: FcModel, ret: TypeModel, st: StState, stmts: Seq<Box<crate::model::ast::Stmt>>)
    ensures
        stmts_fold(fc, ret, st, stmts).ok ==> stmts_fold(fc, ret, st, stmts).after_ret == (st.after_ret || stmts_return(stmts)),
    decreases stmts,
{
    if stmts.len() > 0 {
        let prev = stmts_fold(fc, ret, st, stmts.drop_last());
        lemma_stmts_fold_returns(fc, ret, st, stmts.drop_last());
        lemma_stmt_step_returns(fc, ret, prev, stmts.last().inner);
        lemma_step_ok(fc, ret, prev, stmts.last().inner);
    }
}

/// Checking a statement without error finds that every path has returned after it exactly
/// where it had before it or the statement returns on every path.
proof fn lemma_stmt_step_returns(fc: FcModel, ret: TypeModel, st: StState, s: InnerStmt)
    ensures
        stmt_step(fc, ret, st, s).ok ==> stmt_step(fc, ret, st, s).after_ret == (st.after_ret || stmt_returns(s)),
    decreases s,
{
    match s {
        InnerStmt::Block(bl) => {
            lemma_block_result_returns(fc, st.scopes, ret, bl);
        },
        InnerStmt::Decl { var_type, var_items } => {
            let corr = local_var_type_error(fc.classes, var_type.inner@) is None;
            let st1 = if corr { st } else { StState { ok: false, ..st } };
            lemma_decl_fold_after_ret(fc, st1, var_type.inner@, corr, var_items@);
        },
        InnerStmt::Cond { cond, true_branch, false_branch } => {
            lemma_block_result_returns(fc, st.scopes, ret, true_branch);
            if let Some(bl) = false_branch {
                lemma_block_result_returns(fc, st.scopes, ret, bl);
            }
        },
        _ => {},
    }
}

/// A conditional whose condition is not a literal returns on every path only where both of its
/// branches do: one without `else` never does, whatever its first branch does.
pub proof fn lemma_cond_returns_only_with_both_branches(cond: Box<Expr>, true_branch: Block, false_branch: Option<Block>)
    requires
        !(cond.inner is LitBool),
    ensures
        stmt_returns(InnerStmt::Cond { cond, true_branch, false_branch })
            <==> (block_returns(true_branch) && (false_branch matches Some(bl) && block_returns(bl))),
        false_branch is None ==> !stmt_returns(InnerStmt::Cond { cond, true_branch, false_branch }),
{
}

/// What a function body is checked in: the global declarations, and the class whose
/// method it is, if it is one.
pub struct FunctionContext<'a> {
    class_ctx: Option<&'a ClassDesc>,
    global_ctx: &'a GlobalContext,
}

impl<'a> View for FunctionContext<'a> {
    type V = FcModel;

    closed spec fn view(&self) -> FcModel {
        FcModel {
            classes: self.global_ctx.classes(),
            functions: self.global_ctx.functions(),
            class_ctx: match self.class_ctx {
                Some(c) => Some(c@),
                None => None,
            },
        }
    }
}

impl<'a> FunctionContext<'a> {
    pub closed spec fn wf(&self) -> bool {
        &&& self.global_ctx.wf()
        &&& fc_checked(self@)
        &&& self.class_ctx matches Some(c) ==> c.wf()
    }

    /// The context for the body of a function (`cctx` is `None`) or of a method of `cctx`.
    pub fn new(cctx: Option<&'a ClassDesc>, gctx: &'a GlobalContext) -> (res: Self)
        ensures
            res@ == (FcModel {
                classes: gctx.classes(),
                functions: gctx.functions(),
                class_ctx: match cctx {
                    Some(c) => Some(c@),
                    None => None,
                },
            }),
            (gctx.wf() && (cctx matches Some(c) ==> c.wf()) && fc_checked(res@)) ==> res.wf(),
    {
        FunctionContext { class_ctx: cctx, global_ctx: gctx }
    }
}

/// The local variables in scope while a body is checked.
pub enum Env<'a, 'b> {
    Root(&'a FunctionContext<'a>),
    Nested { parent: &'b Env<'a, 'b>, locals: NameMap<Type> },
}

impl<'a, 'b> Env<'a, 'b> {
    /// The scopes, outermost first.
    pub closed spec fn scopes(&self) -> Scopes
        decreases self,
    {
        match self {
            Env::Root(_) => Seq::empty(),
            Env::Nested { parent, locals } => parent.scopes().push(locals@.map_values(|t: Type| t.inner@)),
        }
    }

    /// The context at the root.
    pub closed spec fn fctx(&self) -> FcModel
        decreases self,
    {
        match self {
            Env::Root(c) => c@,
            Env::Nested { parent, .. } => parent.fctx(),
        }
    }

    pub closed spec fn wf(&self) -> bool
        decreases self,
    {
        match self {
            Env::Root(c) => c.wf(),
            Env::Nested { parent, locals } => locals.wf() && parent.wf(),
        }
    }

    /// The outermost environment: no local variable yet.
    pub fn new_root(fctx: &'a FunctionContext<'a>) -> (res: Env<'a, 'b>)
        ensures
            res.scopes() == Seq::<Map<Seq<char>, TypeModel>>::empty(),
            res.fctx() == fctx@,
            fctx.wf() ==> res.wf(),
    {
        Env::Root(fctx)
    }

    /// A new, empty scope inside `parent`.
    pub fn new_nested(parent: &'b Env<'a, 'b>) -> (res: Env<'a, 'b>)
        ensures
            res.scopes() == parent.scopes().push(Map::empty()),
            res.fctx() == parent.fctx(),
            parent.wf() ==> res.wf(),
    {
        let locals: NameMap<Type> = NameMap::new();
        assert(locals@.map_values(|t: Type| t.inner@) =~= Map::<Seq<char>, TypeModel>::empty());
        let res = Env::Nested { parent, locals };
        res
    }

    /// Declares a variable in the innermost scope. `this` cannot be declared; declaring a
    /// name twice in one scope is an error, and the later declaration stands.
    pub fn add_variable(&mut self, var_type: Type, name: Ident) -> (res: FrontendResult<()>)
        requires
            old(self).wf(),
            *old(self) is Nested,
        ensures
            final(self).wf(),
            *final(self) is Nested,
            final(self).fctx() == old(self).fctx(),
            name.inner@ == THIS_VAR@ ==> final(self).scopes() == old(self).scopes() && single_error(
                res,
                Some("Error: \"this\" variable is reserved for class methods and can't be defined"@),
                name.span,
            ),
            name.inner@ != THIS_VAR@ ==> {
                &&& final(self).scopes() == old(self).scopes().drop_last().push(
                    old(self).scopes().last().insert(name.inner@, var_type.inner@),
                )
                &&& single_error(
                    res,
                    if old(self).scopes().last().contains_key(name.inner@) {
                        Some("Error: variable already defined in current scope"@)
                    } else {
                        None
                    },
                    name.span,
                )
            },
    {
        proof {
            reveal_strlit("this");
            reveal_strlit("Error: \"this\" variable is reserved for class methods and can't be defined");
            reveal_strlit("Error: variable already defined in current scope");
        }
        if str_eq(name.inner.as_str(), THIS_VAR) {
            return one_error("Error: \"this\" variable is reserved for class methods and can't be defined", name.span);
        }
        match self {
            Env::Root(_) => {
                assert(false);
                Ok(())
            },
            Env::Nested { locals, parent } => {
                let ghost old_locals = locals@;
                let t_inner = var_type.inner;
                let ghost tm = t_inner@;
                let span = name.span;
                let prev = locals.insert(name.inner, Type { inner: t_inner, span: var_type.span });
                proof {
                    assert(locals@.map_values(|t: Type| t.inner@) =~= old_locals.map_values(|t: Type| t.inner@).insert(name.inner@, tm));
                }
                if prev.is_some() {
                    one_error("Error: variable already defined in current scope", span)
                } else {
                    Ok(())
                }
            },
        }
    }

    /// What `name` means as a variable here: its type, and whether it is a field of the
    /// current object; else an error about `span`.
    pub fn get_variable(&self, name: &str, span: Span) -> (res: FrontendResult<(InnerType, bool)>)
        requires
            self.wf(),
        ensures
            match var_lookup(self.fctx(), self.scopes(), name@) {
                Ok((t, m)) => res matches Ok((t2, m2)) && t2@ == t && m2 == m,
                Err(msg) => single_error(
                    match res { Ok(_) => Ok(()), Err(e) => Err(e) },
                    Some(msg),
                    span,
                ) && res is Err,
            },
        decreases self,
    {
        match self {
            Env::Root(ctx) => {
                proof {
                    reveal_strlit("this");
                    reveal_strlit("Error: expected variable, found a class method");
                    reveal_strlit("Error: expected variable, found a function");
                    reveal_strlit("Error: variable not defined");
                }
                let mut err_msg: Option<&str> = None;
                if let Some(cctx) = ctx.class_ctx {
                    if str_eq(name, THIS_VAR) {
                        return Ok((InnerType::Class(cctx.name_string()), false));
                    }
                    proof {
                        lemma_known_desc_chain(ctx@.classes, cctx@);
                    }
                    match cctx.get_item(ctx.global_ctx, name) {
                        Some(TypeWrapper::Var(t)) => return Ok((t.inner.clone(), true)),
                        Some(TypeWrapper::Fun(_)) => {
                            err_msg = Some("Error: expected variable, found a class method");
                        },
                        None => {},
                    }
                }
                let err_msg = match err_msg {
                    Some(e) => e,
                    None => match ctx.global_ctx.get_function_description(name) {
                        Some(_) => "Error: expected variable, found a function",
                        None => "Error: variable not defined",
                    },
                };
                Err(vec![FrontendError { err: err_msg.to_owned(), span }])
            },
            Env::Nested { locals, parent } => {
                match locals.get(name) {
                    Some(t) => {
                        assert(self.scopes().last().contains_key(name@));
                        Ok((t.inner.clone(), false))
                    },
                    None => {
                        assert(self.scopes().drop_last() == parent.scopes());
                        parent.get_variable(name, span)
                    },
                }
            },
        }
    }

    /// What `name` means as a function here: its signature, and whether it is a method of
    /// the current object; else an error about `span`.
    pub fn get_function(&self, name: &str, span: Span) -> (res: FrontendResult<(&'a FunDesc, bool)>)
        requires
            self.wf(),
        ensures
            match fun_lookup(self.fctx(), self.scopes(), name@) {
                Ok((f, m)) => res matches Ok((f2, m2)) && f2@ == f && m2 == m,
                Err(msg) => res matches Err(e) && e@.len() == 1 && e@[0].err@ == msg && e@[0].span == span,
            },
        decreases self,
    {
        match self {
            Env::Root(ctx) => {
                proof {
                    reveal_strlit("Error: expected function, found a class field");
                    reveal_strlit("Error: function not defined");
                }
                let mut err_msg: Option<&str> = None;
                if let Some(cctx) = ctx.class_ctx {
                    proof {
                        lemma_known_desc_chain(ctx@.classes, cctx@);
                    }
                    match cctx.get_item(ctx.global_ctx, name) {
                        Some(TypeWrapper::Fun(f)) => return Ok((f, true)),
                        Some(TypeWrapper::Var(_)) => {
                            err_msg = Some("Error: expected function, found a class field");
                        },
                        None => {},
                    }
                }
                let err_msg = match err_msg {
                    Some(e) => e,
                    None => match ctx.global_ctx.get_function_description(name) {
                        Some(f) => return Ok((f, false)),
                        None => "Error: function not defined",
                    },
                };
                Err(vec![FrontendError { err: err_msg.to_owned(), span }])
            },
            Env::Nested { locals, parent } => {
                proof {
                    reveal_strlit("Error: expected function, got a variable");
                }
                match locals.get(name) {
                    Some(_) => {
                        assert(self.scopes().last().contains_key(name@));
                        Err(vec![FrontendError { err: "Error: expected function, got a variable".to_owned(), span }])
                    },
                    None => {
                        assert(self.scopes().drop_last() == parent.scopes());
                        parent.get_function(name, span)
                    },
                }
            },
        }
    }
}


/// `res` is the failure with the one error `msg` at `span`.
pub open spec fn one_error_at<T>(res: FrontendResult<T>, msg: Seq<char>, span: Span) -> bool {
    res matches Err(e) && e@.len() == 1 && e@[0].err@ == msg && e@[0].span == span
}

fn front_err<T>(msg: String, span: Span) -> (res: FrontendResult<T>)
    ensures
        res matches Err(e) && e@.len() == 1 && e@[0].err@ == msg@ && e@[0].span == span,
{
    Err(vec![FrontendError { err: msg, span }])
}

/// The message for a binary operator applied to operands it does not take.
pub open spec fn binop_error(op: BinaryOp) -> Seq<char> {
    let eq_msg = "two operands of same type: integer, boolean and string, or used to check if array or class reference is null"@;
    let (sym, args) = match op {
        BinaryOp::And => ("&&"@, "boolean expressions"@),
        BinaryOp::Or => ("||"@, "boolean expressions"@),
        BinaryOp::Add => ("+"@, "two integer expressions (sum) or two string expressions (concatenation)"@),
        BinaryOp::Sub => ("-"@, "integer expressions"@),
        BinaryOp::Mul => ("*"@, "integer expressions"@),
        BinaryOp::Div => ("/"@, "integer expressions"@),
        BinaryOp::Mod => ("%"@, "integer expressions"@),
        BinaryOp::LT => ("<"@, "integer expressions"@),
        BinaryOp::LE => ("<="@, "integer expressions"@),
        BinaryOp::GT => (">"@, "integer expressions"@),
        BinaryOp::GE => (">="@, "integer expressions"@),
        BinaryOp::EQ => ("=="@, eq_msg),
        BinaryOp::NE => ("!="@, eq_msg),
    };
    "Error: binary operator '"@ + sym + "' can be applied only to "@ + args
}

fn binary_fail<T>(op_str: &str, args: &str, span: Span) -> (res: FrontendResult<T>)
    ensures
        res matches Err(e) && e@.len() == 1 && e@[0].span == span
            && e@[0].err@ == "Error: binary operator '"@ + op_str@ + "' can be applied only to "@ + args@,
{
    let mut m = String::new();
    append_str(&mut m, "Error: binary operator '");
    append_str(&mut m, op_str);
    append_str(&mut m, "' can be applied only to ");
    append_str(&mut m, args);
    front_err(m, span)
}

fn is_int(t: &InnerType) -> (res: bool) ensures res == t@ is Int { match t { InnerType::Int => true, _ => false } }
fn is_bool(t: &InnerType) -> (res: bool) ensures res == t@ is Bool { match t { InnerType::Bool => true, _ => false } }
fn is_str(t: &InnerType) -> (res: bool) ensures res == t@ is Str { match t { InnerType::String => true, _ => false } }
fn is_null(t: &InnerType) -> (res: bool) ensures res == t@ is Null { match t { InnerType::Null => true, _ => false } }
fn is_ref(t: &InnerType) -> (res: bool) ensures res == (t@ is Class || t@ is Array) {
    match t { InnerType::Class(_) => true, InnerType::Array(_) => true, _ => false }
}

/// The type of a binary operation, or the error that says which operands it takes.
fn binop_check(lhs_t: &InnerType, op: BinaryOp, rhs_t: &InnerType, span: Span) -> (res: FrontendResult<InnerType>)
    ensures
        match binop_type(lhs_t@, op, rhs_t@) {
            Some(t) => res matches Ok(t2) && t2@ == t,
            None => res matches Err(e) && e@.len() == 1 && e@[0].err@ == binop_error(op) && e@[0].span == span,
        },
{
    let (l_int, r_int) = (is_int(lhs_t), is_int(rhs_t));
    let (l_bool, r_bool) = (is_bool(lhs_t), is_bool(rhs_t));
    let (l_str, r_str) = (is_str(lhs_t), is_str(rhs_t));
    let eq_ok = (l_int && r_int) || (l_bool && r_bool) || (l_str && r_str) || (is_ref(lhs_t) && is_null(rhs_t))
        || (is_null(lhs_t) && is_ref(rhs_t));
    let eq_msg = "two operands of same type: integer, boolean and string, or used to check if array or class reference is null";
    match op {
        BinaryOp::And => if l_bool && r_bool { Ok(InnerType::Bool) } else { binary_fail("&&", "boolean expressions", span) },
        BinaryOp::Or => if l_bool && r_bool { Ok(InnerType::Bool) } else { binary_fail("||", "boolean expressions", span) },
        BinaryOp::Add => if l_str && r_str {
            Ok(InnerType::String)
        } else if l_int && r_int {
            Ok(InnerType::Int)
        } else {
            binary_fail("+", "two integer expressions (sum) or two string expressions (concatenation)", span)
        },
        BinaryOp::Sub => if l_int && r_int { Ok(InnerType::Int) } else { binary_fail("-", "integer expressions", span) },
        BinaryOp::Mul => if l_int && r_int { Ok(InnerType::Int) } else { binary_fail("*", "integer expressions", span) },
        BinaryOp::Div => if l_int && r_int { Ok(InnerType::Int) } else { binary_fail("/", "integer expressions", span) },
        BinaryOp::Mod => if l_int && r_int { Ok(InnerType::Int) } else { binary_fail("%", "integer expressions", span) },
        BinaryOp::LT => if l_int && r_int { Ok(InnerType::Bool) } else { binary_fail("<", "integer expressions", span) },
        BinaryOp::LE => if l_int && r_int { Ok(InnerType::Bool) } else { binary_fail("<=", "integer expressions", span) },
        BinaryOp::GT => if l_int && r_int { Ok(InnerType::Bool) } else { binary_fail(">", "integer expressions", span) },
        BinaryOp::GE => if l_int && r_int { Ok(InnerType::Bool) } else { binary_fail(">=", "integer expressions", span) },
        BinaryOp::EQ => if eq_ok { Ok(InnerType::Bool) } else { binary_fail("==", eq_msg, span) },
        BinaryOp::NE => if eq_ok { Ok(InnerType::Bool) } else { binary_fail("!=", eq_msg, span) },
    }
}

fn message2(a: &str, b: &str, c: &str) -> (res: String)
    ensures
        res@ == a@ + b@ + c@,
{
    let mut m = String::new();
    append_str(&mut m, a);
    append_str(&mut m, b);
    append_str(&mut m, c);
    m
}

fn message4(a: &str, b: &str, c: &str, d: &str) -> (res: String)
    ensures
        res@ == a@ + b@ + c@ + d@,
{
    let mut m = message2(a, b, c);
    append_str(&mut m, d);
    m
}

fn count_message(expected: usize, got: usize) -> (res: String)
    ensures
        res@ == "Error: expected "@ + crate::text::decimal(expected as nat) + " argument(s), got "@
            + crate::text::decimal(got as nat) + "."@,
{
    let mut m = String::new();
    append_str(&mut m, "Error: expected ");
    crate::text::append_decimal(&mut m, expected as u64);
    append_str(&mut m, " argument(s), got ");
    crate::text::append_decimal(&mut m, got as u64);
    append_str(&mut m, ".");
    m
}


impl<'a> FunctionContext<'a> {
    /// `env` is an environment of this context whose variables have valid types.
    pub open spec fn env_ok(&self, env: &Env<'_, '_>) -> bool {
        &&& self.wf()
        &&& env.wf()
        &&& env.fctx() == self@
        &&& scopes_valid(self@.classes, env.scopes())
    }

    /// Checks an expression against the type `expected`, inserting a conversion where its
    /// type is compatible but different.
    fn check_expression_check_type(&self, expr: &mut Expr, expected: &InnerType, cur_env: &Env<'_, '_>) -> (res: FrontendResult<()>)
        requires
            self.env_ok(cur_env),
            expr_clean(old(expr).inner),
        ensures
            final(expr).span == old(expr).span,
            check_ok(self@, cur_env.scopes(), old(expr).inner, expected@) <==> res is Ok,
            res matches Err(e) ==> e@.len() > 0,
            (final(expr).inner is LitBool) == (old(expr).inner is LitBool),
            old(expr).inner is LitBool && expected@ is Bool ==> final(expr).inner == old(expr).inner,
            expected@ is Int ==> lv_kind(final(expr).inner) == lv_kind_after_check(self@, cur_env.scopes(), old(expr).inner),
            check_ok(self@, cur_env.scopes(), old(expr).inner, expected@)
                ==> converted(self@, cur_env.scopes(), *old(expr), *final(expr), expected@),
        decreases *old(expr), 2nat,
    {
        let expr_type = self.check_expression_get_type(expr, cur_env)?;
        proof {
            lemma_valid_compat_defined(self@.classes, expected@, expr_type@);
        }
        let r = self.global_ctx.check_types_compatibility(expected, &expr_type, expr.span);
        match r {
            Ok(()) => {},
            Err(e) => {
                return Err(e);
            },
        }
        if !inner_type_eq(expected, &expr_type) {
            let mut inner = InnerExpr::LitNull;
            std::mem::swap(&mut inner, &mut expr.inner);
            expr.inner = InnerExpr::CastType(Box::new(ItemWithSpan { inner, span: expr.span }), expected.clone());
        }
        Ok(())
    }

    /// Checks the arguments of a call against the parameters of `fun_desc`.
    fn validate_fun_call(&self, fun_desc: &FunDesc, args: &mut Vec<Box<Expr>>, cur_env: &Env<'_, '_>, span: Span) -> (res: FrontendResult<InnerType>)
        requires
            self.env_ok(cur_env),
            args_clean(old(args)@),
            fun_types_ok(self@.classes, fun_desc@),
        ensures
            final(args)@.len() == old(args)@.len(),
            (old(args)@.len() == fun_desc@.args.len() && args_fit(self@, cur_env.scopes(), old(args)@, fun_desc@.args))
                ==> (res matches Ok(t) && t@ == fun_desc@.ret),
            !(old(args)@.len() == fun_desc@.args.len() && args_fit(self@, cur_env.scopes(), old(args)@, fun_desc@.args))
                ==> (res matches Err(e) && e@.len() > 0),
            res matches Ok(t) ==> type_valid(self@.classes, t@),
            old(args)@.len() != fun_desc@.args.len() ==> one_error_at(res, "Error: expected "@
                + crate::text::decimal(fun_desc@.args.len()) + " argument(s), got "@ + crate::text::decimal(old(args)@.len())
                + "."@, span),
            (old(args)@.len() == fun_desc@.args.len() && args_fit(self@, cur_env.scopes(), old(args)@, fun_desc@.args))
                ==> args_rewritten(self@, cur_env.scopes(), old(args)@, final(args)@, fun_desc@.args),
        decreases *old(args), 0nat,
    {
        let ghost orig = args@;
        let expected_args_no = fun_desc.args_types.len();
        let got_args_no = args.len();
        if expected_args_no != got_args_no {
            return front_err(count_message(expected_args_no, got_args_no), span);
        }
        let mut errors: Vec<FrontendError> = Vec::new();
        let mut i: usize = 0;
        while i < args.len()
            invariant
                self.env_ok(cur_env),
                args_clean(orig),
                orig == old(args)@,
                args@.len() == orig.len(),
                orig.len() == fun_desc@.args.len(),
                fun_desc.args_types@.len() == orig.len(),
                i <= orig.len(),
                forall|j: int| i <= j < orig.len() ==> #[trigger] args@[j] == orig[j],
                errors@.len() == 0 <==> args_fit(self@, cur_env.scopes(), orig.take(i as int), fun_desc@.args),
                forall|j: int| 0 <= j < i ==> args_fit(self@, cur_env.scopes(), orig, fun_desc@.args)
                    ==> converted(self@, cur_env.scopes(), *orig[j], *#[trigger] args@[j], fun_desc@.args[j]),
            decreases orig.len() - i,
        {
            proof {
                if args_fit(self@, cur_env.scopes(), orig, fun_desc@.args) {
                    lemma_args_fit_index(self@, cur_env.scopes(), orig, fun_desc@.args, i as int);
                }
            }
            let ghost before = args@;
            proof {
                assert(orig.take(i + 1).drop_last() =~= orig.take(i as int));
                assert(orig.take(i + 1).last() == orig[i as int]);
                lemma_args_clean_index(orig, i as int);
                assert(decreases_to!(*old(args) => old(args)@));
                assert(decreases_to!(old(args)@ => orig[i as int]));
                assert(decreases_to!(*old(args) => *orig[i as int]));
            }
            let r = self.check_expression_check_type(&mut *args[i], &fun_desc.args_types[i].inner, cur_env);
            r.accumulate_errors_in(&mut errors);
            proof {
                assert forall|j: int| 0 <= j < i + 1 && args_fit(self@, cur_env.scopes(), orig, fun_desc@.args)
                    implies converted(self@, cur_env.scopes(), *orig[j], *#[trigger] args@[j], fun_desc@.args[j]) by {
                    if j < i {
                        assert(args@[j] == before[j]);
                    }
                }
            }
            i = i + 1;
        }
        proof {
            assert(orig.take(orig.len() as int) =~= orig);
            lemma_ret_ok_valid(self@.classes, fun_desc@.ret);
        }
        if errors.len() == 0 {
            Ok(fun_desc.ret_type.inner.clone())
        } else {
            Err(errors)
        }
    }

    /// The type of an expression; names of the current object's fields and methods are
    /// rewritten to access through `this`, and each checked argument or operand of another
    /// type than expected is wrapped in a conversion.
    pub fn check_expression_get_type(&self, expr: &mut Expr, cur_env: &Env<'_, '_>) -> (res: FrontendResult<InnerType>)
        requires
            self.env_ok(cur_env),
            expr_clean(old(expr).inner),
        ensures
            final(expr).span == old(expr).span,
            match expr_type(self@, cur_env.scopes(), old(expr).inner) {
                Some(t) => res matches Ok(t2) && t2@ == t,
                None => res matches Err(e) && e@.len() > 0,
            },
            res matches Ok(t) ==> type_valid(self@.classes, t@),
            lv_kind(final(expr).inner) == lv_kind_after_check(self@, cur_env.scopes(), old(expr).inner),
            (final(expr).inner is LitBool) == (old(expr).inner is LitBool),
            old(expr).inner is LitBool ==> final(expr).inner == old(expr).inner,
            expr_type(self@, cur_env.scopes(), old(expr).inner) is Some
                ==> rewritten(self@, cur_env.scopes(), *old(expr), *final(expr)),
            old(expr).inner matches InnerExpr::LitVar(v) ==> (var_lookup(self@, cur_env.scopes(), v@) is Err
                ==> one_error_at(res, var_lookup(self@, cur_env.scopes(), v@)->Err_0, old(expr).span)),
            old(expr).inner matches InnerExpr::BinaryOp(lhs, op, rhs) ==> (expr_type(self@, cur_env.scopes(), lhs.inner) is Some
                && expr_type(self@, cur_env.scopes(), rhs.inner) is Some
                && binop_type(expr_type(self@, cur_env.scopes(), lhs.inner)->0, op, expr_type(self@, cur_env.scopes(), rhs.inner)->0) is None
                ==> one_error_at(res, binop_error(op), old(expr).span)),
            old(expr).inner matches InnerExpr::UnaryOp(op, sub) ==> (expr_type(self@, cur_env.scopes(), sub.inner) is Some
                && unop_type(op.inner, expr_type(self@, cur_env.scopes(), sub.inner)->0) is None ==> one_error_at(res, if op.inner is IntNeg {
                    "Error: unary operator '-' can be applied only to integer expressions"@
                } else {
                    "Error: unary operator '!' can be applied only to boolean expressions"@
                }, old(expr).span)),
            old(expr).inner matches InnerExpr::FunCall { function_name, args } ==> (fun_lookup(self@, cur_env.scopes(), function_name.inner@) is Ok
                && args@.len() != fun_lookup(self@, cur_env.scopes(), function_name.inner@)->Ok_0.0.args.len() ==> one_error_at(res, "Error: expected "@
                + crate::text::decimal(fun_lookup(self@, cur_env.scopes(), function_name.inner@)->Ok_0.0.args.len())
                + " argument(s), got "@ + crate::text::decimal(args@.len()) + "."@, old(expr).span)),
            old(expr).inner matches InnerExpr::ObjField { obj, field, .. } ==> (expr_type(self@, cur_env.scopes(), obj.inner) is Some
                && expr_type(self@, cur_env.scopes(), obj.inner)->0 is Array && field.inner@ != "length"@
                ==> one_error_at(res, "Error: array's only field is length"@, old(expr).span)),
        decreases *old(expr), 1nat,
    {
        let expr_span = expr.span;
        let ghost scopes = cur_env.scopes();
        let ghost fc = self@;
        let mut override_expr: Option<InnerExpr> = None;
        let result: FrontendResult<InnerType> = match &mut expr.inner {
            InnerExpr::LitVar(var) => {
                proof { lemma_var_lookup_valid(fc, scopes, var@); }
                match cur_env.get_variable(var.as_str(), expr_span) {
                    Ok((var_type, true)) => {
                        override_expr = Some(InnerExpr::ObjField {
                            obj: Box::new(ItemWithSpan { span: expr_span, inner: InnerExpr::LitVar(THIS_VAR.to_owned()) }),
                            is_obj_an_array: Some(false),
                            field: ItemWithSpan { span: expr_span, inner: var.clone() },
                        });
                        Ok(var_type)
                    },
                    Ok((var_type, false)) => Ok(var_type),
                    Err(err) => Err(err),
                }
            },
            InnerExpr::LitInt(_) => Ok(InnerType::Int),
            InnerExpr::LitBool(_) => Ok(InnerType::Bool),
            InnerExpr::LitStr(_) => Ok(InnerType::String),
            InnerExpr::LitNull => Ok(InnerType::Null),
            InnerExpr::CastType(_, _) => {
                assert(false);
                Ok(InnerType::Null)
            },
            InnerExpr::FunCall { function_name, args } => {
                proof { lemma_fun_lookup_valid(fc, scopes, function_name.inner@); }
                match cur_env.get_function(function_name.inner.as_str(), function_name.span) {
                    Ok((fun_desc, is_class_member)) => {
                        let result = self.validate_fun_call(fun_desc, args, cur_env, expr_span);
                        if is_class_member {
                            let mut moved: Vec<Box<Expr>> = Vec::new();
                            std::mem::swap(&mut moved, args);
                            override_expr = Some(InnerExpr::ObjMethodCall {
                                obj: Box::new(ItemWithSpan { span: function_name.span, inner: InnerExpr::LitVar(THIS_VAR.to_owned()) }),
                                method_name: function_name.clone(),
                                args: moved,
                            });
                        }
                        result
                    },
                    Err(err) => Err(err),
                }
            },
            InnerExpr::BinaryOp(lhs, op, rhs) => {
                let lhs_res = self.check_expression_get_type(&mut **lhs, cur_env);
                let rhs_res = self.check_expression_get_type(&mut **rhs, cur_env);
                match (lhs_res, rhs_res) {
                    (Ok(lhs_t), Ok(rhs_t)) => binop_check(&lhs_t, *op, &rhs_t, expr_span),
                    (Ok(_), Err(err)) => Err(err),
                    (Err(err), Ok(_)) => Err(err),
                    (Err(mut err1), Err(mut err2)) => {
                        err1.append(&mut err2);
                        Err(err1)
                    },
                }
            },
            InnerExpr::UnaryOp(op, e) => {
                match self.check_expression_get_type(&mut **e, cur_env) {
                    Ok(t) => match (op.inner, &t) {
                        (InnerUnaryOp::IntNeg, InnerType::Int) => Ok(InnerType::Int),
                        (InnerUnaryOp::BoolNeg, InnerType::Bool) => Ok(InnerType::Bool),
                        (InnerUnaryOp::IntNeg, _) => front_err(
                            "Error: unary operator '-' can be applied only to integer expressions".to_owned(),
                            expr_span,
                        ),
                        (InnerUnaryOp::BoolNeg, _) => front_err(
                            "Error: unary operator '!' can be applied only to boolean expressions".to_owned(),
                            expr_span,
                        ),
                    },
                    Err(err) => Err(err),
                }
            },
            InnerExpr::NewArray { elem_type, elem_cnt } => {
                let type_ok = self.global_ctx.check_local_var_type(elem_type);
                let cnt_ok = self.check_expression_check_type(&mut **elem_cnt, &InnerType::Int, cur_env);
                match (type_ok, cnt_ok) {
                    (Ok(()), Ok(())) => {
                        proof { lemma_local_ok_valid(fc.classes, elem_type.inner@); }
                        Ok(InnerType::Array(Box::new(elem_type.inner.clone())))
                    },
                    (Ok(_), Err(err)) => Err(err),
                    (Err(err), Ok(_)) => Err(err),
                    (Err(mut err1), Err(mut err2)) => {
                        err1.append(&mut err2);
                        Err(err1)
                    },
                }
            },
            InnerExpr::ArrayElem { array, index } => {
                let mut errors: Vec<FrontendError> = Vec::new();
                let idx = self.check_expression_check_type(&mut **index, &InnerType::Int, cur_env);
                idx.accumulate_errors_in(&mut errors);
                let res = match self.check_expression_get_type(&mut **array, cur_env) {
                    Ok(InnerType::Array(t)) => Some(t),
                    Ok(_) => {
                        errors.push(FrontendError { err: "Error: only arrays can be indexed".to_owned(), span: expr_span });
                        None
                    },
                    Err(mut err) => {
                        errors.append(&mut err);
                        None
                    },
                };
                match res {
                    Some(t) => if errors.len() == 0 {
                        Ok(*t)
                    } else {
                        Err(errors)
                    },
                    None => Err(errors),
                }
            },
            InnerExpr::NewObject(obj_type) => {
                match self.global_ctx.check_local_var_type(obj_type) {
                    Ok(()) => {
                        if let InnerType::Class(_) = obj_type.inner {
                            proof { lemma_local_ok_valid(fc.classes, obj_type.inner@); }
                            Ok(obj_type.inner.clone())
                        } else {
                            front_err("Error: you can use new only with class and array types".to_owned(), expr_span)
                        }
                    },
                    Err(err) => Err(err),
                }
            },
            InnerExpr::ObjField { obj, is_obj_an_array, field } => {
                match self.check_expression_get_type(&mut **obj, cur_env) {
                    Ok(InnerType::Class(cl_name)) => {
                        *is_obj_an_array = Some(false);
                        let desc = self.global_ctx.get_class_description(cl_name.as_str()).unwrap();
                        proof {
                            lemma_known_desc_chain(fc.classes, desc@);
                            lemma_item_of_valid(fc, desc@, field.inner@);
                        }
                        match desc.get_item(self.global_ctx, field.inner.as_str()) {
                            Some(TypeWrapper::Var(t)) => Ok(t.inner.clone()),
                            Some(TypeWrapper::Fun(_)) => front_err(
                                message2("Error: ", field.inner.as_str(), " is a method, not a field"),
                                expr_span,
                            ),
                            None => front_err(
                                message4("Error: ", field.inner.as_str(), " is not defined for class ", cl_name.as_str()),
                                expr_span,
                            ),
                        }
                    },
                    Ok(InnerType::Array(_)) => {
                        *is_obj_an_array = Some(true);
                        proof { reveal_strlit("length"); }
                        if str_eq(field.inner.as_str(), "length") {
                            Ok(InnerType::Int)
                        } else {
                            front_err("Error: array's only field is length".to_owned(), expr_span)
                        }
                    },
                    Ok(_) => front_err("Error: only classes and arrays have fields".to_owned(), expr_span),
                    Err(err) => Err(err),
                }
            },
            InnerExpr::ObjMethodCall { obj, method_name, args } => {
                match self.check_expression_get_type(&mut **obj, cur_env) {
                    Ok(InnerType::Class(cl_name)) => {
                        let desc = self.global_ctx.get_class_description(cl_name.as_str()).unwrap();
                        proof {
                            lemma_known_desc_chain(fc.classes, desc@);
                            lemma_item_of_valid(fc, desc@, method_name.inner@);
                        }
                        match desc.get_item(self.global_ctx, method_name.inner.as_str()) {
                            Some(TypeWrapper::Fun(fun_desc)) => self.validate_fun_call(fun_desc, args, cur_env, expr_span),
                            Some(TypeWrapper::Var(_)) => front_err(
                                message2("Error: ", method_name.inner.as_str(), " is a field, not a method"),
                                expr_span,
                            ),
                            None => front_err(
                                message4("Error: ", method_name.inner.as_str(), " is not defined for class ", cl_name.as_str()),
                                expr_span,
                            ),
                        }
                    },
                    Ok(_) => front_err("Error: only classes have methods".to_owned(), expr_span),
                    Err(err) => Err(err),
                }
            },
        };
        if let Some(new_expr) = override_expr {
            expr.inner = new_expr;
        }
        result
    }
}

impl<'a> FunctionContext<'a> {
    /// `Ok` when a checked expression may be assigned to: a variable, an array element, or a
    /// field of an object.
    pub fn check_if_lvalue(&self, expr: &Expr) -> (res: FrontendResult<()>)
        requires
            lv_kind(expr.inner) != LvKind::Field(None),
        ensures
            res is Ok <==> lvalue_ok(lv_kind(expr.inner)),
            res matches Err(e) ==> e@.len() > 0,
    {
        match &expr.inner {
            InnerExpr::LitVar(_) | InnerExpr::ArrayElem { .. } => Ok(()),
            InnerExpr::ObjField { is_obj_an_array, .. } => match is_obj_an_array {
                Some(true) => front_err("Error: only class objects have mutable fields".to_owned(), expr.span),
                Some(false) => Ok(()),
                None => {
                    assert(false);
                    Ok(())
                },
            },
            _ => front_err(
                "Error: required an l-value (options: variable <var>, array elem <expr>.[index], or object field <obj>.<field>)".to_owned(),
                expr.span,
            ),
        }
    }

    /// Declares the variables of a declaration of type `var_type` (when that type is valid,
    /// `corr`) and checks their initial values.
    fn check_decl(
        &self,
        var_type: &Type,
        corr: bool,
        var_items: &mut Vec<(Ident, Option<Box<Expr>>)>,
        cur_env: &mut Env<'_, '_>,
        errors: &mut Vec<FrontendError>,
        Ghost(st0): Ghost<StState>,
    )
        requires
            self.env_ok(&*old(cur_env)),
            *old(cur_env) is Nested,
            decl_items_clean(old(var_items)@),
            corr == (local_var_type_error(self@.classes, var_type.inner@) is None),
            st0.scopes == old(cur_env).scopes(),
            st0.ok == (old(errors)@.len() == 0),
        ensures
            self.env_ok(&*final(cur_env)),
            *final(cur_env) is Nested,
            final(var_items)@.len() == old(var_items)@.len(),
            ({
                let st = decl_fold(self@, st0, var_type.inner@, corr, old(var_items)@);
                &&& final(cur_env).scopes() == st.scopes
                &&& st.ok == (final(errors)@.len() == 0)
                &&& st.after_ret == st0.after_ret
                &&& st.defined == st0.defined
            }),
            corr && decl_fold(self@, st0, var_type.inner@, corr, old(var_items)@).ok
                ==> decl_rewritten(self@, st0, var_type.inner@, old(var_items)@, final(var_items)@),
            old(errors)@.len() <= final(errors)@.len(),
            forall|k: int| 0 <= k < old(errors)@.len() ==> #[trigger] final(errors)@[k] == old(errors)@[k],
    {
        let ghost orig = var_items@;
        let ghost fc = self@;
        proof {
            if corr {
                lemma_local_ok_valid(fc.classes, var_type.inner@);
            }
        }
        let mut i: usize = 0;
        while i < var_items.len()
            invariant
                self.env_ok(&*cur_env),
                *cur_env is Nested,
                fc == self@,
                decl_items_clean(orig),
                corr == (local_var_type_error(fc.classes, var_type.inner@) is None),
                corr ==> type_valid(fc.classes, var_type.inner@),
                var_items@.len() == orig.len(),
                i <= orig.len(),
                forall|j: int| i <= j < orig.len() ==> #[trigger] var_items@[j] == orig[j],
                ({
                    let st = decl_fold(fc, st0, var_type.inner@, corr, orig.take(i as int));
                    &&& cur_env.scopes() == st.scopes
                    &&& st.ok == (errors@.len() == 0)
                    &&& st.after_ret == st0.after_ret
                    &&& st.defined == st0.defined
                }),
                old(errors)@.len() <= errors@.len(),
                forall|k: int| 0 <= k < old(errors)@.len() ==> #[trigger] errors@[k] == old(errors)@[k],
                forall|j: int| 0 <= j < i ==> corr && decl_fold(fc, st0, var_type.inner@, corr, orig).ok
                    ==> (#[trigger] var_items@[j]).0 == orig[j].0 && match orig[j].1 {
                        Some(e) => var_items@[j].1 matches Some(e2)
                            && converted(fc, decl_fold(fc, st0, var_type.inner@, true, orig.take(j + 1)).scopes, *e, *e2, var_type.inner@),
                        None => var_items@[j].1 is None,
                    },
            decreases orig.len() - i,
        {
            proof {
                if corr && decl_fold(fc, st0, var_type.inner@, corr, orig).ok {
                    lemma_decl_ok_index(fc, st0, var_type.inner@, corr, orig, i as int);
                }
            }
            let ghost items_before = var_items@;
            proof {
                assert(orig.take(i + 1).drop_last() =~= orig.take(i as int));
                assert(orig.take(i + 1).last() == orig[i as int]);
            }
            let ghost st1 = decl_fold(fc, st0, var_type.inner@, corr, orig.take(i as int));
            let item = &mut var_items[i];
            if corr {
                let ghost before = cur_env.scopes();
                let r = cur_env.add_variable(var_type.clone(), item.0.clone());
                r.accumulate_errors_in(errors);
                proof {
                    let st2 = add_var(st1, var_type.inner@, orig[i as int].0.inner@);
                    reveal_strlit("this");
                    assert(cur_env.scopes() == st2.scopes);
                    assert(st2.ok == (errors@.len() == 0));
                    assert(scopes_valid(fc.classes, cur_env.scopes())) by {
                        assert forall|a: int, k: Seq<char>| 0 <= a < cur_env.scopes().len() && #[trigger] cur_env.scopes()[a].contains_key(k)
                            implies type_valid(fc.classes, cur_env.scopes()[a][k]) by {
                            if a < before.len() - 1 || !(k == orig[i as int].0.inner@) {
                                if orig[i as int].0.inner@ != "this"@ && a == before.len() - 1 {
                                    assert(before[a].contains_key(k));
                                }
                            }
                        }
                    }
                }
            }
            let ghost st2 = if corr { add_var(st1, var_type.inner@, orig[i as int].0.inner@) } else { st1 };
            match &mut item.1 {
                Some(init_expr) => {
                    assert(expr_clean(orig[i as int].1->0.inner));
                    let r = self.check_expression_check_type(&mut **init_expr, &var_type.inner, &*cur_env);
                    r.accumulate_errors_in(errors);
                },
                None => {},
            }
            proof {
                assert forall|j: int| 0 <= j < i + 1 && corr && decl_fold(fc, st0, var_type.inner@, corr, orig).ok
                    implies (#[trigger] var_items@[j]).0 == orig[j].0 && match orig[j].1 {
                        Some(e) => var_items@[j].1 matches Some(e2)
                            && converted(fc, decl_fold(fc, st0, var_type.inner@, true, orig.take(j + 1)).scopes, *e, *e2, var_type.inner@),
                        None => var_items@[j].1 is None,
                    } by {
                    if j < i {
                        assert(var_items@[j] == items_before[j]);
                    }
                }
            }
            i = i + 1;
        }
        proof {
            assert(orig.take(orig.len() as int) =~= orig);
        }
    }
}

impl<'a> FunctionContext<'a> {
    /// Checks a block in a function returning `ret_type`: `Ok` with whether every path through
    /// it returns, or all errors found. A loop counts as returning only where its condition is
    /// the literal `true`, since its body may run no time at all; a `for` loop never counts.
    pub fn enter_block(&self, ret_type: &Type, block: &mut Block, parent_env: &Env<'_, '_>) -> (res: FrontendResult<bool>)
        requires
            self.env_ok(parent_env),
            block_clean(*old(block)),
            block_result(self@, parent_env.scopes(), ret_type.inner@, *old(block)).defined,
        ensures
            ({
                let r = block_result(self@, parent_env.scopes(), ret_type.inner@, *old(block));
                &&& r.ok ==> res == Ok::<bool, Vec<FrontendError>>(r.after_ret)
                &&& !r.ok ==> (res matches Err(e) && e@.len() > 0)
            }),
            block_result(self@, parent_env.scopes(), ret_type.inner@, *old(block)).ok
                ==> block_rewritten(self@, parent_env.scopes(), ret_type.inner@, *old(block), *final(block)),
            res matches Ok(always) ==> always == block_returns(*old(block)),
        decreases *old(block),
    {
        proof {
            lemma_block_result_returns(self@, parent_env.scopes(), ret_type.inner@, *block);
        }
        let ghost fc = self@;
        let ghost ret = ret_type.inner@;
        let ghost orig = block.stmts@;
        let ghost st0 = StState { scopes: parent_env.scopes().push(Map::empty()), after_ret: false, ok: true, defined: true };
        let mut errors: Vec<FrontendError> = Vec::new();
        let mut cur_env = Env::new_nested(parent_env);
        let mut after_ret = false;
        proof {
            assert(scopes_valid(fc.classes, cur_env.scopes())) by {
                assert forall|a: int, k: Seq<char>| 0 <= a < cur_env.scopes().len() && #[trigger] cur_env.scopes()[a].contains_key(k)
                    implies type_valid(fc.classes, cur_env.scopes()[a][k]) by {
                    assert(a < parent_env.scopes().len());
                    assert(cur_env.scopes()[a] == parent_env.scopes()[a]);
                }
            }
        }
        let mut i: usize = 0;
        while i < block.stmts.len()
            invariant
                self.env_ok(&cur_env),
                cur_env is Nested,
                fc == self@,
                ret == ret_type.inner@,
                orig == old(block).stmts@,
                stmts_clean(orig),
                stmts_fold(fc, ret, st0, orig).defined,
                block.stmts@.len() == orig.len(),
                i <= orig.len(),
                forall|j: int| i <= j < orig.len() ==> #[trigger] block.stmts@[j] == orig[j],
                ({
                    let st = stmts_fold(fc, ret, st0, orig.take(i as int));
                    &&& cur_env.scopes() == st.scopes
                    &&& after_ret == st.after_ret
                    &&& (errors@.len() == 0) == st.ok
                }),
                block.span == old(block).span,
                forall|j: int| 0 <= j < i ==> stmts_fold(fc, ret, st0, orig).ok
                    ==> stmt_rewritten(fc, ret, stmts_fold(fc, ret, st0, orig.take(j)), *orig[j], *#[trigger] block.stmts@[j]),
            decreases orig.len() - i,
        {
            proof {
                if stmts_fold(fc, ret, st0, orig).ok {
                    lemma_fold_ok_prefix(fc, ret, st0, orig, i as int);
                }
                assert(orig.take(i + 1).drop_last() =~= orig.take(i as int));
                assert(orig.take(i + 1).last() == orig[i as int]);
                lemma_fold_defined_prefix(fc, ret, st0, orig, i as int);
                lemma_stmts_clean_index(orig, i as int);
                assert(decreases_to!(*old(block) => old(block).stmts));
                assert(decreases_to!(old(block).stmts => orig));
                assert(decreases_to!(orig => orig[i as int]));
            }
            let ghost st = stmts_fold(fc, ret, st0, orig.take(i as int));
            let ghost s = orig[i as int].inner;
            let ghost stmts_before = block.stmts@;
            let st_span = block.stmts[i].span;
            let stmt = &mut block.stmts[i];
            match &mut stmt.inner {
                InnerStmt::Empty => {},
                InnerStmt::Block(bl) => {
                    match self.enter_block(ret_type, bl, &cur_env) {
                        Ok(does_ret) => {
                            after_ret = after_ret || does_ret;
                        },
                        Err(mut err) => {
                            errors.append(&mut err);
                        },
                    }
                },
                InnerStmt::Decl { var_type, var_items } => {
                    let corr = match self.global_ctx.check_local_var_type(var_type) {
                        Ok(()) => true,
                        Err(mut err) => {
                            errors.append(&mut err);
                            false
                        },
                    };
                    let ghost st1 = if corr { st } else { StState { ok: false, ..st } };
                    proof {
                        lemma_decl_fold_ok(fc, st1, var_type.inner@, corr, var_items@);
                    }
                    self.check_decl(var_type, corr, var_items, &mut cur_env, &mut errors, Ghost(st1));
                },
                InnerStmt::Assign(lhs, rhs) => {
                    match self.check_expression_get_type(&mut **lhs, &cur_env) {
                        Ok(t) => {
                            let r1 = self.check_if_lvalue(&**lhs);
                            r1.accumulate_errors_in(&mut errors);
                            let r2 = self.check_expression_check_type(&mut **rhs, &t, &cur_env);
                            r2.accumulate_errors_in(&mut errors);
                        },
                        Err(mut err) => {
                            errors.append(&mut err);
                        },
                    }
                },
                InnerStmt::Incr(e) => {
                    let r1 = self.check_expression_check_type(&mut **e, &InnerType::Int, &cur_env);
                    r1.accumulate_errors_in(&mut errors);
                    let r2 = self.check_if_lvalue(&**e);
                    r2.accumulate_errors_in(&mut errors);
                },
                InnerStmt::Decr(e) => {
                    let r1 = self.check_expression_check_type(&mut **e, &InnerType::Int, &cur_env);
                    r1.accumulate_errors_in(&mut errors);
                    let r2 = self.check_if_lvalue(&**e);
                    r2.accumulate_errors_in(&mut errors);
                },
                InnerStmt::Ret(opt_expr) => {
                    after_ret = true;
                    match opt_expr {
                        Some(ret_expr) => {
                            let r = self.check_expression_check_type(&mut **ret_expr, &ret_type.inner, &cur_env);
                            r.accumulate_errors_in(&mut errors);
                        },
                        None => {
                            if !inner_type_eq(&ret_type.inner, &InnerType::Void) {
                                errors.push(FrontendError {
                                    err: "Error: type of returned expression mismatch declared return type".to_owned(),
                                    span: st_span,
                                });
                            }
                        },
                    }
                },
                InnerStmt::Cond { cond, true_branch, false_branch } => {
                    let r = self.check_expression_check_type(&mut **cond, &InnerType::Bool, &cur_env);
                    r.accumulate_errors_in(&mut errors);
                    let cond_state: Option<bool> = match &cond.inner {
                        InnerExpr::LitBool(cond_val) => Some(*cond_val),
                        _ => None,
                    };
                    let br1_ret = match self.enter_block(ret_type, true_branch, &cur_env) {
                        Ok(does_ret) => does_ret,
                        Err(mut err) => {
                            errors.append(&mut err);
                            false
                        },
                    };
                    let br2_ret = match false_branch {
                        Some(bl) => match self.enter_block(ret_type, bl, &cur_env) {
                            Ok(does_ret) => does_ret,
                            Err(mut err) => {
                                errors.append(&mut err);
                                false
                            },
                        },
                        None => false,
                    };
                    after_ret = after_ret || match cond_state {
                        Some(true) => br1_ret,
                        Some(false) => br2_ret,
                        None => br1_ret && br2_ret,
                    };
                },
                InnerStmt::While(cond_expr, body_bl) => {
                    let r = self.check_expression_check_type(&mut **cond_expr, &InnerType::Bool, &cur_env);
                    r.accumulate_errors_in(&mut errors);
                    match self.enter_block(ret_type, body_bl, &cur_env) {
                        Ok(_) => {},
                        Err(mut err) => {
                            errors.append(&mut err);
                        },
                    }
                    if let InnerExpr::LitBool(ret_val) = &cond_expr.inner {
                        after_ret = after_ret || *ret_val;
                    }
                },
                InnerStmt::ForEach { iter_type, iter_name, array, body } => {
                    let mut new_env = Env::new_nested(&cur_env);
                    proof {
                        assert(scopes_valid(fc.classes, new_env.scopes())) by {
                            assert forall|a: int, k: Seq<char>| 0 <= a < new_env.scopes().len() && #[trigger] new_env.scopes()[a].contains_key(k)
                                implies type_valid(fc.classes, new_env.scopes()[a][k]) by {
                                assert(a < cur_env.scopes().len());
                                assert(new_env.scopes()[a] == cur_env.scopes()[a]);
                            }
                        }
                    }
                    match self.global_ctx.check_local_var_type(iter_type) {
                        Ok(()) => {
                            proof { lemma_local_ok_valid(fc.classes, iter_type.inner@); }
                            let ghost before = new_env.scopes();
                            let r = new_env.add_variable(iter_type.clone(), iter_name.clone());
                            r.accumulate_errors_in(&mut errors);
                            proof {
                                reveal_strlit("this");
                                assert(scopes_valid(fc.classes, new_env.scopes())) by {
                                    assert forall|a: int, k: Seq<char>| 0 <= a < new_env.scopes().len() && #[trigger] new_env.scopes()[a].contains_key(k)
                                        implies type_valid(fc.classes, new_env.scopes()[a][k]) by {
                                        if a < before.len() - 1 {
                                            assert(new_env.scopes()[a] == before[a]);
                                        }
                                    }
                                }
                            }
                            let arr_type = InnerType::Array(Box::new(iter_type.inner.clone()));
                            let r2 = self.check_expression_check_type(&mut **array, &arr_type, &cur_env);
                            r2.accumulate_errors_in(&mut errors);
                        },
                        Err(mut err) => {
                            errors.append(&mut err);
                        },
                    }
                    proof {
                        reveal_strlit("this");
                        let corr = local_var_type_error(fc.classes, iter_type.inner@) is None;
                        let named = iter_name.inner@ != "this"@;
                        let scope = if corr && named { Map::empty().insert(iter_name.inner@, iter_type.inner@) } else { Map::<Seq<char>, TypeModel>::empty() };
                        assert(new_env.scopes() =~= st.scopes.push(scope));
                    }
                    match self.enter_block(ret_type, body, &new_env) {
                        Ok(_) => {},
                        Err(mut err) => {
                            errors.append(&mut err);
                        },
                    }
                },
                InnerStmt::Expr(subexpr) => {
                    match self.check_expression_get_type(&mut **subexpr, &cur_env) {
                        Ok(_) => {},
                        Err(mut err) => {
                            errors.append(&mut err);
                        },
                    }
                },
                InnerStmt::Error => {
                    assert(false);
                },
            }
            proof {
                assert(stmts_fold(fc, ret, st0, orig.take(i + 1)) == stmt_step(fc, ret, st, s));
                if stmts_fold(fc, ret, st0, orig).ok {
                    assert(stmt_rewritten(fc, ret, st, *orig[i as int], *block.stmts@[i as int]));
                }
                assert forall|j: int| 0 <= j < i + 1 && stmts_fold(fc, ret, st0, orig).ok
                    implies stmt_rewritten(fc, ret, stmts_fold(fc, ret, st0, orig.take(j)), *orig[j], *#[trigger] block.stmts@[j]) by {
                    if j < i {
                        assert(block.stmts@[j] == stmts_before[j]);
                    }
                }
            }
            i = i + 1;
        }
        proof {
            assert(orig.take(orig.len() as int) =~= orig);
            assert(st0 == StState { scopes: parent_env.scopes().push(Map::empty()), after_ret: false, ok: true, defined: true });
        }
        if errors.len() == 0 {
            Ok(after_ret)
        } else {
            Err(errors)
        }
    }
}

/// The parameter types mention no `null`, and the body is clean.
pub open spec fn fun_clean(f: FunDef) -> bool {
    &&& forall|i: int| 0 <= i < f.args@.len() ==> !crate::semantics::global_context::has_null((#[trigger] f.args@[i]).0.inner@)
    &&& block_clean(f.body)
}

impl<'a> FunctionContext<'a> {
    /// Checks a function or method: its parameter types, its body, and that it returns on
    /// every path unless it returns `void`.
    pub fn analyze_function(&self, fun: &mut FunDef) -> (res: FrontendResult<()>)
        requires
            self.wf(),
            fun_clean(*old(fun)),
            body_result(self@, *old(fun)).defined,
        ensures
            res is Ok <==> function_ok(self@, *old(fun)),
            res matches Err(e) ==> e@.len() > 0,
            final(fun).ret_type == old(fun).ret_type,
            final(fun).name == old(fun).name,
            final(fun).args == old(fun).args,
            final(fun).span == old(fun).span,
            res is Ok ==> fun_rewritten(self@, *old(fun), *final(fun)),
            params_state(self@, *old(fun)).ok && body_result(self@, *old(fun)).ok && !body_result(self@, *old(fun)).after_ret
                && !(old(fun).ret_type.inner@ is Void) ==> (res matches Err(e) && e@.len() == 1
                && e@[0].err@ == "Error: detected potential execution path without return"@ && e@[0].span == old(fun).body.span),
    {
        let ghost fc = self@;
        let ghost f0 = *fun;
        let mut errors: Vec<FrontendError> = Vec::new();
        let root = Env::new_root(self);
        let mut params_env = Env::new_nested(&root);
        let ghost st0 = StState { scopes: seq![Map::empty()], after_ret: false, ok: true, defined: true };
        assert(params_env.scopes() =~= st0.scopes);
        let mut i: usize = 0;
        while i < fun.args.len()
            invariant
                self.env_ok(&params_env),
                params_env is Nested,
                fc == self@,
                *fun == f0,
                fun_clean(f0),
                i <= f0.args@.len(),
                ({
                    let st = params_fold(fc, st0, f0.args@.take(i as int));
                    &&& params_env.scopes() == st.scopes
                    &&& st.ok == (errors@.len() == 0)
                }),
            decreases f0.args@.len() - i,
        {
            proof {
                assert(f0.args@.take(i + 1).drop_last() =~= f0.args@.take(i as int));
                assert(f0.args@.take(i + 1).last() == f0.args@[i as int]);
            }
            let ghost st1 = params_fold(fc, st0, f0.args@.take(i as int));
            let (t, id) = &fun.args[i];
            match self.global_ctx.check_local_var_type(t) {
                Ok(()) => {
                    proof { lemma_local_ok_valid(fc.classes, t.inner@); }
                    let ghost before = params_env.scopes();
                    let r = params_env.add_variable(t.clone(), id.clone());
                    r.accumulate_errors_in(&mut errors);
                    proof {
                        reveal_strlit("this");
                        assert(scopes_valid(fc.classes, params_env.scopes())) by {
                            assert forall|a: int, k: Seq<char>| 0 <= a < params_env.scopes().len() && #[trigger] params_env.scopes()[a].contains_key(k)
                                implies type_valid(fc.classes, params_env.scopes()[a][k]) by {
                                if a < before.len() - 1 || !(k == id.inner@) {
                                    if id.inner@ != "this"@ && a == before.len() - 1 {
                                        assert(before[a].contains_key(k));
                                    }
                                }
                            }
                        }
                    }
                },
                Err(mut err) => {
                    errors.append(&mut err);
                },
            }
            i = i + 1;
        }
        proof {
            assert(f0.args@.take(f0.args@.len() as int) =~= f0.args@);
        }
        let body_span = fun.body.span;
        let is_void = inner_type_eq(&fun.ret_type.inner, &InnerType::Void);
        match self.enter_block(&fun.ret_type, &mut fun.body, &params_env) {
            Ok(true) => {},
            Ok(false) => {
                if !is_void {
                    errors.push(FrontendError {
                        err: "Error: detected potential execution path without return".to_owned(),
                        span: body_span,
                    });
                }
            },
            Err(mut err) => {
                errors.append(&mut err);
            },
        }
        ok_if_no_error(errors)
    }
}

proof fn lemma_args_fit_index(fc: FcModel, scopes: Scopes, args: Seq<Box<Expr>>, params: Seq<TypeModel>, i: int)
    requires
        args_fit(fc, scopes, args, params),
        0 <= i < args.len(),
    ensures
        check_ok(fc, scopes, args[i].inner, params[i]),
    decreases args.len(),
{
    if i < args.len() - 1 {
        lemma_args_fit_index(fc, scopes, args.drop_last(), params, i);
        assert(args.drop_last()[i] == args[i]);
    }
}

proof fn lemma_args_clean_index(args: Seq<Box<Expr>>, i: int)
    requires
        args_clean(args),
        0 <= i < args.len(),
    ensures
        expr_clean(args[i].inner),
    decreases args.len(),
{
    if i < args.len() - 1 {
        lemma_args_clean_index(args.drop_last(), i);
        assert(args.drop_last()[i] == args[i]);
    }
}

} // verus!
