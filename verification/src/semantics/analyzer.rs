use vstd::prelude::*;
use crate::frontend_error::{FrontendError, FrontendResult, ErrorAccumulation, ok_if_no_error};
use crate::model::ast::{InnerClassItemDef, InnerType, Program, TopDef, TypeModel, EMPTY_SPAN, inner_type_eq};
use crate::semantics::function::{FunctionContext, fc_checked, fun_clean};
use crate::semantics::global_context::{
    ClassModel, FunModel, GlobalContext, all_types_ok, class_walk_ends, defs_null_free, defs_parsed,
    hierarchy_ok, lemma_scan_keeps_classes, scan_program, ScanModel,
};
use crate::semantics::typing::{FcModel, body_result, function_ok, fun_rewritten};

verus! {

/// The context that the body of a function (`None`) or of a method of class `cl` is checked in.
pub open spec fn fc_for(classes: Map<Seq<char>, ClassModel>, functions: Map<Seq<char>, FunModel>, cl: Option<Seq<char>>) -> FcModel {
    FcModel {
        classes,
        functions,
        class_ctx: match cl {
            Some(n) => Some(classes[n]),
            None => None,
        },
    }
}

/// The method defined by a class member, if it is a method, satisfies `p` in the class's context.
pub open spec fn item_body(
    classes: Map<Seq<char>, ClassModel>,
    functions: Map<Seq<char>, FunModel>,
    cl_name: Seq<char>,
    it: crate::model::ast::ClassItemDef,
    p: spec_fn(FcModel, crate::model::ast::FunDef) -> bool,
) -> bool {
    match it.inner {
        InnerClassItemDef::Method(m) => p(fc_for(classes, functions, Some(cl_name)), m),
        _ => true,
    }
}

/// The function, or each method, that a top-level definition defines satisfies `p` in its context.
pub open spec fn def_bodies(
    classes: Map<Seq<char>, ClassModel>,
    functions: Map<Seq<char>, FunModel>,
    def: TopDef,
    p: spec_fn(FcModel, crate::model::ast::FunDef) -> bool,
) -> bool {
    match def {
        TopDef::FunDef(f) => p(fc_for(classes, functions, None), f),
        TopDef::ClassDef(cl) => forall|j: int| 0 <= j < cl.items@.len() ==> item_body(classes, functions, cl.name.inner@, #[trigger] cl.items@[j], p),
        TopDef::Error => true,
    }
}

/// Every function and method definition of the program satisfies `p` in its context.
pub open spec fn all_bodies(
    classes: Map<Seq<char>, ClassModel>,
    functions: Map<Seq<char>, FunModel>,
    defs: Seq<TopDef>,
    p: spec_fn(FcModel, crate::model::ast::FunDef) -> bool,
) -> bool {
    forall|i: int| 0 <= i < defs.len() ==> def_bodies(classes, functions, #[trigger] defs[i], p)
}

pub open spec fn checkable_pred() -> spec_fn(FcModel, crate::model::ast::FunDef) -> bool {
    |fc: FcModel, f: crate::model::ast::FunDef| fun_clean(f) && body_result(fc, f).defined
}

pub open spec fn ok_pred() -> spec_fn(FcModel, crate::model::ast::FunDef) -> bool {
    |fc: FcModel, f: crate::model::ast::FunDef| function_ok(fc, f)
}

/// `new` is what checking leaves of the class member `old` of class `cl_name`, where checking
/// found no error: a method is rewritten in the class's context, anything else is kept.
pub open spec fn item_rewritten(
    classes: Map<Seq<char>, ClassModel>,
    functions: Map<Seq<char>, FunModel>,
    cl_name: Seq<char>,
    old: crate::model::ast::ClassItemDef,
    new: crate::model::ast::ClassItemDef,
) -> bool {
    match old.inner {
        InnerClassItemDef::Method(m) => new.span == old.span && (new.inner matches InnerClassItemDef::Method(m2)
            && fun_rewritten(fc_for(classes, functions, Some(cl_name)), m, m2)),
        _ => new == old,
    }
}

/// `new` is what checking leaves of the top-level definition `old`, where checking found no
/// error: a function is rewritten, a class keeps all but its methods, which are rewritten.
pub open spec fn def_rewritten(classes: Map<Seq<char>, ClassModel>, functions: Map<Seq<char>, FunModel>, old: TopDef, new: TopDef) -> bool {
    match old {
        TopDef::FunDef(f) => new matches TopDef::FunDef(f2) && fun_rewritten(fc_for(classes, functions, None), f, f2),
        TopDef::ClassDef(cl) => new matches TopDef::ClassDef(cl2) && cl2.name == cl.name && cl2.parent_type == cl.parent_type
            && cl2.span == cl.span && cl2.items@.len() == cl.items@.len()
            && forall|j: int| 0 <= j < cl.items@.len()
                ==> item_rewritten(classes, functions, cl.name.inner@, cl.items@[j], #[trigger] cl2.items@[j]),
        TopDef::Error => new == old,
    }
}

/// Each definition in `news` is what checking left of its counterpart in `olds`.
pub open spec fn defs_rewritten(classes: Map<Seq<char>, ClassModel>, functions: Map<Seq<char>, FunModel>, olds: Seq<TopDef>, news: Seq<TopDef>) -> bool {
    &&& news.len() == olds.len()
    &&& forall|i: int| 0 <= i < olds.len() ==> def_rewritten(classes, functions, olds[i], #[trigger] news[i])
}

/// The checker is defined on every body: none holds anything it rejects outright.
pub open spec fn bodies_checkable(classes: Map<Seq<char>, ClassModel>, functions: Map<Seq<char>, FunModel>, defs: Seq<TopDef>) -> bool {
    all_bodies(classes, functions, defs, checkable_pred())
}

/// Every function and method passes its check.
pub open spec fn bodies_ok(classes: Map<Seq<char>, ClassModel>, functions: Map<Seq<char>, FunModel>, defs: Seq<TopDef>) -> bool {
    all_bodies(classes, functions, defs, ok_pred())
}

/// Every class definition's name is declared.
pub open spec fn classes_declared(classes: Map<Seq<char>, ClassModel>, defs: Seq<TopDef>) -> bool {
    forall|i: int| 0 <= i < defs.len() ==> (#[trigger] defs[i] matches TopDef::ClassDef(cl) ==> classes.contains_key(cl.name.inner@))
}

/// What the analysis needs of a program read by the parser: no malformed definition or
/// member, no `null` written as a type in a declaration, checking each superclass declaration
/// ends, and the checker is defined on every body.
pub open spec fn analyzable(p: Program) -> bool {
    &&& defs_parsed(p.defs@)
    &&& defs_null_free(p.defs@)
    &&& forall|k: Seq<char>| #[trigger] scan_program(p).classes.contains_key(k) ==> class_walk_ends(
            scan_program(p).classes,
            scan_program(p).classes[k],
        )
    &&& bodies_checkable(scan_program(p).classes, scan_program(p).functions, p.defs@)
}

/// There is a function `main` that returns `int` and takes no argument.
pub open spec fn main_ok(functions: Map<Seq<char>, FunModel>) -> bool {
    functions.contains_key("main"@) && functions["main"@].ret is Int && functions["main"@].args.len() == 0
}

/// The whole semantic analysis of one program.
pub struct SemanticAnalyzer<'a> {
    pub ast: &'a mut Program,
    pub ctx: Option<GlobalContext>,
}

impl<'a> SemanticAnalyzer<'a> {
    /// The program being analyzed.
    pub closed spec fn program(&self) -> Program {
        *self.ast
    }

    /// The global declarations, once gathered.
    pub closed spec fn spec_ctx(&self) -> Option<GlobalContext> {
        self.ctx
    }

    /// Gathered declarations are consistent and passed their checks.
    pub closed spec fn wf(&self) -> bool {
        self.ctx matches Some(c) ==> c.wf() && fc_checked(FcModel { classes: c.classes(), functions: c.functions(), class_ctx: None })
    }

    /// An analyzer that has not looked at `prog` yet.
    pub fn new(prog: &'a mut Program) -> (res: Self)
        ensures
            res.program() == *old(prog),
            *final(res.ast) == *final(prog),
            res.spec_ctx() is None,
            res.wf(),
            res.decls() == (scan_program(*old(prog)).classes, scan_program(*old(prog)).functions),
    {
        SemanticAnalyzer { ast: prog, ctx: None }
    }

    /// The declarations the bodies are checked against: those gathered, or else those of the program.
    pub closed spec fn decls(&self) -> (Map<Seq<char>, ClassModel>, Map<Seq<char>, FunModel>) {
        match self.ctx {
            Some(c) => (c.classes(), c.functions()),
            None => (scan_program(*self.ast).classes, scan_program(*self.ast).functions),
        }
    }

    /// Gathers and checks the global declarations, unless that was done already.
    fn calculate_global_context(&mut self) -> (res: FrontendResult<()>)
        requires
            old(self).wf(),
            old(self).spec_ctx() is None ==> {
                &&& defs_parsed(old(self).program().defs@)
                &&& defs_null_free(old(self).program().defs@)
                &&& forall|k: Seq<char>| #[trigger] scan_program(old(self).program()).classes.contains_key(k) ==> class_walk_ends(
                    scan_program(old(self).program()).classes,
                    scan_program(old(self).program()).classes[k],
                )
            },
        ensures
            final(self).wf(),
            final(self).program() == old(self).program(),
            *final(final(self).ast) == *final(old(self).ast),
            old(self).spec_ctx() is Some ==> res is Ok && final(self).spec_ctx() == old(self).spec_ctx(),
            old(self).spec_ctx() is None ==> {
                let st = scan_program(old(self).program());
                &&& (res is Ok <==> (st.ok && all_types_ok(st)))
                &&& res is Ok ==> final(self).spec_ctx() is Some && final(self).decls() == (st.classes, st.functions)
                &&& res matches Err(e) ==> e@.len() > 0
            },
    {
        if self.ctx.is_some() {
            return Ok(());
        }
        match GlobalContext::from(&*self.ast) {
            Ok(ctx) => {
                self.ctx = Some(ctx);
                Ok(())
            },
            Err(err) => Err(err),
        }
    }

    /// Checks every function and method body of the program.
    fn analyze_functions(&mut self) -> (res: FrontendResult<()>)
        requires
            old(self).wf(),
            old(self).spec_ctx() is Some,
            classes_declared(old(self).decls().0, old(self).program().defs@),
            bodies_checkable(old(self).decls().0, old(self).decls().1, old(self).program().defs@),
        ensures
            final(self).wf(),
            final(self).spec_ctx() == old(self).spec_ctx(),
            *final(final(self).ast) == *final(old(self).ast),
            res is Ok <==> bodies_ok(old(self).decls().0, old(self).decls().1, old(self).program().defs@),
            res matches Err(e) ==> e@.len() > 0,
            res is Ok ==> defs_rewritten(old(self).decls().0, old(self).decls().1, old(self).program().defs@, final(self).program().defs@),
    {
        let ghost orig = self.ast.defs@;
        let ghost classes = self.decls().0;
        let ghost functions = self.decls().1;
        let mut errors: Vec<FrontendError> = Vec::new();
        let gctx = self.ctx.as_ref().unwrap();
        let gfun_ctx = FunctionContext::new(None, gctx);
        assert(gfun_ctx@ == fc_for(classes, functions, None));
        let mut i: usize = 0;
        while i < self.ast.defs.len()
            invariant
                self.ctx == old(self).ctx,
                *final(self.ast) == *final(old(self).ast),
                self.ctx == Some(*gctx),
                gctx.wf(),
                gfun_ctx.wf(),
                gctx.classes() == classes,
                gctx.functions() == functions,
                gfun_ctx@ == fc_for(classes, functions, None),
                fc_checked(FcModel { classes, functions, class_ctx: None }),
                classes_declared(classes, orig),
                bodies_checkable(classes, functions, orig),
                self.ast.defs@.len() == orig.len(),
                i <= orig.len(),
                forall|k: int| i <= k < orig.len() ==> #[trigger] self.ast.defs@[k] == orig[k],
                errors@.len() == 0 <==> forall|k: int| 0 <= k < i ==> def_bodies(classes, functions, #[trigger] orig[k], ok_pred()),
                forall|k: int| 0 <= k < i ==> bodies_ok(classes, functions, orig)
                    ==> def_rewritten(classes, functions, orig[k], #[trigger] self.ast.defs@[k]),
            decreases orig.len() - i,
        {
            assert(def_bodies(classes, functions, orig[i as int], checkable_pred()));
            proof {
                if bodies_ok(classes, functions, orig) {
                    assert(def_bodies(classes, functions, orig[i as int], ok_pred()));
                }
            }
            let ghost before = errors@.len();
            let ghost defs_before = self.ast.defs@;
            match &mut self.ast.defs[i] {
                TopDef::FunDef(fun) => {
                    let r = gfun_ctx.analyze_function(fun);
                    r.accumulate_errors_in(&mut errors);
                },
                TopDef::ClassDef(cl) => {
                    let ghost cl0 = *cl;
                    let cl_desc = gctx.get_class_description(cl.name.inner.as_str()).unwrap();
                    let cl_ctx = FunctionContext::new(Some(cl_desc), gctx);
                    proof {
                        assert(cl_ctx@ == fc_for(classes, functions, Some(cl0.name.inner@)));
                        assert(hierarchy_ok(classes));
                        assert(classes.contains_key(cl0.name.inner@));
                        assert(fc_checked(cl_ctx@));
                    }
                    let mut j: usize = 0;
                    while j < cl.items.len()
                        invariant
                            cl_ctx.wf(),
                            cl_ctx@ == fc_for(classes, functions, Some(cl0.name.inner@)),
                            cl.name == cl0.name,
                            cl.parent_type == cl0.parent_type,
                            cl.span == cl0.span,
                            forall|k: int| 0 <= k < j ==> bodies_ok(classes, functions, orig)
                                ==> item_rewritten(classes, functions, cl0.name.inner@, cl0.items@[k], #[trigger] cl.items@[k]),
                            bodies_ok(classes, functions, orig) ==> def_bodies(classes, functions, TopDef::ClassDef(cl0), ok_pred()),
                            cl.items@.len() == cl0.items@.len(),
                            j <= cl0.items@.len(),
                            forall|k: int| j <= k < cl0.items@.len() ==> #[trigger] cl.items@[k] == cl0.items@[k],
                            forall|k: int| 0 <= k < cl0.items@.len() ==> item_body(classes, functions, cl0.name.inner@, #[trigger] cl0.items@[k], checkable_pred()),
                            errors@.len() >= before,
                            errors@.len() == before <==> forall|k: int| 0 <= k < j ==> item_body(classes, functions, cl0.name.inner@, #[trigger] cl0.items@[k], ok_pred()),
                        decreases cl0.items@.len() - j,
                    {
                        assert(item_body(classes, functions, cl0.name.inner@, cl0.items@[j as int], checkable_pred()));
                        proof {
                            if bodies_ok(classes, functions, orig) {
                                assert(item_body(classes, functions, cl0.name.inner@, cl0.items@[j as int], ok_pred()));
                            }
                        }
                        let ghost items_before = cl.items@;
                        match &mut cl.items[j].inner {
                            InnerClassItemDef::Field(_, _) => {},
                            InnerClassItemDef::Method(fun) => {
                                let r = cl_ctx.analyze_function(fun);
                                r.accumulate_errors_in(&mut errors);
                            },
                            InnerClassItemDef::Error => {},
                        }
                        proof {
                            assert forall|k: int| 0 <= k < j + 1 && bodies_ok(classes, functions, orig)
                                implies item_rewritten(classes, functions, cl0.name.inner@, cl0.items@[k], #[trigger] cl.items@[k]) by {
                                if k < j {
                                    assert(cl.items@[k] == items_before[k]);
                                }
                            }
                        }
                        j = j + 1;
                    }
                },
                TopDef::Error => {},
            }
            proof {
                assert forall|k: int| 0 <= k < i + 1 && bodies_ok(classes, functions, orig)
                    implies def_rewritten(classes, functions, orig[k], #[trigger] self.ast.defs@[k]) by {
                    if k < i {
                        assert(self.ast.defs@[k] == defs_before[k]);
                    }
                }
            }
            i = i + 1;
        }
        ok_if_no_error(errors)
    }

    /// `Ok` when there is a function `main` that returns `int` and takes no argument.
    fn check_main_signature(&mut self) -> (res: FrontendResult<()>)
        requires
            old(self).wf(),
            old(self).spec_ctx() is Some,
        ensures
            *final(self) == *old(self),
            res is Ok <==> main_ok(old(self).decls().1),
            res matches Err(e) ==> e@.len() > 0,
    {
        let gctx = self.ctx.as_ref().unwrap();
        proof { reveal_strlit("main"); }
        match gctx.get_function_description("main") {
            Some(f) => {
                if inner_type_eq(&f.ret_type.inner, &InnerType::Int) && f.args_types.len() == 0 {
                    Ok(())
                } else {
                    Err(vec![FrontendError {
                        err: "Error: main function has invalid signature, it must return int and take no arguments".to_owned(),
                        span: EMPTY_SPAN,
                    }])
                }
            },
            None => Err(vec![FrontendError { err: "Error: main function not found".to_owned(), span: EMPTY_SPAN }]),
        }
    }

    /// Runs the whole analysis: gathers and checks the global declarations (unless done
    /// already), checks every body, and checks `main`; it stops at the first phase with errors.
    pub fn perform_full_analysis(&mut self) -> (res: FrontendResult<()>)
        requires
            old(self).wf(),
            old(self).spec_ctx() is None ==> {
                &&& defs_parsed(old(self).program().defs@)
                &&& defs_null_free(old(self).program().defs@)
                &&& forall|k: Seq<char>| #[trigger] scan_program(old(self).program()).classes.contains_key(k) ==> class_walk_ends(
                    scan_program(old(self).program()).classes,
                    scan_program(old(self).program()).classes[k],
                )
            },
            old(self).spec_ctx() is Some ==> classes_declared(old(self).decls().0, old(self).program().defs@),
            bodies_checkable(old(self).decls().0, old(self).decls().1, old(self).program().defs@),
        ensures
            final(self).wf(),
            res is Ok ==> final(self).spec_ctx() is Some,
            *final(final(self).ast) == *final(old(self).ast),
            res is Ok ==> (final(self).spec_ctx() matches Some(c) && c.classes() == old(self).decls().0
                && c.functions() == old(self).decls().1),
            res is Ok ==> defs_rewritten(old(self).decls().0, old(self).decls().1, old(self).program().defs@, final(self).program().defs@),
            res is Ok <==> {
                &&& (old(self).spec_ctx() is None ==> scan_program(old(self).program()).ok && all_types_ok(scan_program(old(self).program())))
                &&& bodies_ok(old(self).decls().0, old(self).decls().1, old(self).program().defs@)
                &&& main_ok(old(self).decls().1)
            },
            res matches Err(e) ==> e@.len() > 0,
    {
        let ghost decls0 = self.decls();
        let ghost prog0 = self.program();
        let r = self.calculate_global_context();
        match r {
            Ok(()) => {},
            Err(e) => {
                return Err(e);
            },
        }
        proof {
            assert(self.decls() == decls0);
            if old(self).spec_ctx() is None {
                lemma_scan_keeps_classes(ScanModel { classes: Map::empty(), functions: crate::semantics::global_context::builtin_functions(), ok: true }, prog0.defs@);
            }
        }
        let r = self.analyze_functions();
        match r {
            Ok(()) => {},
            Err(e) => {
                return Err(e);
            },
        }
        self.check_main_signature()
    }

    /// The global declarations, once gathered.
    pub fn get_global_ctx(&self) -> (res: Option<&GlobalContext>)
        requires
            self.wf(),
        ensures
            res == match self.spec_ctx() {
                Some(c) => Some(&c),
                None => None::<&GlobalContext>,
            },
            res matches Some(c) ==> c.wf(),
    {
        self.ctx.as_ref()
    }

    /// The global declarations, once gathered, taken out of the analyzer.
    pub fn into_global_ctx(self) -> (res: Option<GlobalContext>)
        requires
            self.wf(),
        ensures
            res == self.spec_ctx(),
            res matches Some(c) ==> c.wf(),
            *final(self.ast) == self.program(),
    {
        self.ctx
    }
}

} // verus!
