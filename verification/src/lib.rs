use vstd::prelude::*;

pub mod codegen;
pub mod codemap;
pub mod frontend_error;
pub mod model;
pub mod name_map;
pub mod parser;
pub mod semantics;
pub mod text;

verus! {

use crate::codegen::function::{function_wf, strings_wf};
use crate::frontend_error::{FrontendError, forward_spans, format_errors, spans_are_ordered, spans_ordered};
use crate::model::ast::Program;
use crate::model::ir;
use crate::parser::scan;
use crate::codegen::{bodies_generated, class_methods, functions_generated, generated_functions, program_cg_ok};
use crate::model::ast::{ClassItemDef, FunDef, InnerClassItemDef, TopDef};
use crate::semantics::analyzer::{SemanticAnalyzer, analyzable, bodies_ok, main_ok, def_rewritten, defs_rewritten, item_rewritten};
use crate::semantics::global_context::{ClassModel, FunModel};
use crate::semantics::global_context::{all_types_ok, scan_program};

/// A generated program whose functions all have consistent control flow graphs and whose
/// global strings are numbered in order.
pub open spec fn program_wf(p: ir::Program) -> bool {
    &&& strings_wf(p.global_strings)
    &&& forall|i: int| 0 <= i < p.functions@.len() ==> function_wf(#[trigger] p.functions@[i])
}

/// The program passes every semantic check: its global declarations are consistent, every
/// type they name is valid, every body checks, and `main` takes nothing and returns `int`.
pub open spec fn program_checks(p: Program) -> bool {
    let st = scan_program(p);
    &&& st.ok && all_types_ok(st)
    &&& bodies_ok(st.classes, st.functions, p.defs@)
    &&& main_ok(st.functions)
}

/// Two definitions of a function with the same name, return type and parameters.
pub open spec fn same_signature(a: FunDef, b: FunDef) -> bool {
    &&& a.name == b.name
    &&& a.ret_type == b.ret_type
    &&& a.args == b.args
}

/// Checking a class's members keeps the signatures of its methods, in order.
proof fn lemma_methods_keep_signatures(
    classes: Map<Seq<char>, ClassModel>,
    functions: Map<Seq<char>, FunModel>,
    cl_name: Seq<char>,
    olds: Seq<ClassItemDef>,
    news: Seq<ClassItemDef>,
)
    requires
        news.len() == olds.len(),
        forall|j: int| 0 <= j < olds.len() ==> item_rewritten(classes, functions, cl_name, olds[j], #[trigger] news[j]),
    ensures
        class_methods(news).len() == class_methods(olds).len(),
        forall|i: int| 0 <= i < class_methods(olds).len() ==> same_signature(#[trigger] class_methods(news)[i], class_methods(olds)[i]),
    decreases olds.len(),
{
    if olds.len() > 0 {
        let n = olds.len() - 1;
        assert(item_rewritten(classes, functions, cl_name, olds[n as int], news[n as int]));
        assert forall|j: int| 0 <= j < olds.drop_last().len()
            implies item_rewritten(classes, functions, cl_name, olds.drop_last()[j], #[trigger] news.drop_last()[j]) by {
            assert(item_rewritten(classes, functions, cl_name, olds[j], news[j]));
        }
        lemma_methods_keep_signatures(classes, functions, cl_name, olds.drop_last(), news.drop_last());
    }
}

/// Checking a program keeps the signatures of its functions and methods, in order.
proof fn lemma_defs_keep_signatures(
    classes: Map<Seq<char>, ClassModel>,
    functions: Map<Seq<char>, FunModel>,
    olds: Seq<TopDef>,
    news: Seq<TopDef>,
)
    requires
        defs_rewritten(classes, functions, olds, news),
    ensures
        generated_functions(news).len() == generated_functions(olds).len(),
        forall|i: int| 0 <= i < generated_functions(olds).len()
            ==> same_signature(#[trigger] generated_functions(news)[i], generated_functions(olds)[i]),
    decreases olds.len(),
{
    if olds.len() > 0 {
        let n = olds.len() - 1;
        assert(def_rewritten(classes, functions, olds[n as int], news[n as int]));
        assert(defs_rewritten(classes, functions, olds.drop_last(), news.drop_last())) by {
            assert forall|i: int| 0 <= i < olds.drop_last().len()
                implies def_rewritten(classes, functions, olds.drop_last()[i], #[trigger] news.drop_last()[i]) by {
                assert(def_rewritten(classes, functions, olds[i], news[i]));
            }
        }
        lemma_defs_keep_signatures(classes, functions, olds.drop_last(), news.drop_last());
        if let TopDef::ClassDef(cl) = olds[n as int] {
            if let TopDef::ClassDef(cl2) = news[n as int] {
                lemma_methods_keep_signatures(classes, functions, cl.name.inner@, cl.items@, cl2.items@);
            }
        }
    }
}

/// `s` is the report of `errors` on the source `code` of file `filename`.
pub open spec fn is_report(filename: Seq<char>, code: Seq<char>, errors: Seq<FrontendError>, s: Seq<char>) -> bool {
    crate::codemap::realizes(
        crate::frontend_error::errors_pieces(filename, crate::codemap::split_lines(crate::codemap::expand_tabs(code)), errors)
            + crate::codemap::paint(crate::frontend_error::summary_text(errors.len())),
        s,
    )
}

/// What compiling gives once the grammar has read the text and given `result` and `errors`:
/// the report of the syntax errors where there are any; an error where no program came
/// back; else an error where the program fails a semantic check, and IR only for a program
/// that passes them all: one function for each function and method of the program, in the
/// order of their definitions, each with its signature, and each keeping the `return` that
/// the checked body starts with, if it does (see `first_return_kept`). A program that passes the checks
/// compiles where what the checks leave of it is made of functions that the code generator
/// is sure to produce.
pub open spec fn compile_outcome(
    filename: Seq<char>,
    code: Seq<char>,
    result: Option<Program>,
    errors: Seq<FrontendError>,
    res: Result<ir::Program, String>,
) -> bool {
    if errors.len() > 0 {
        res matches Err(s) && (spans_ordered(errors) ==> is_report(filename, code, errors, s@))
    } else {
        match result {
            None => res is Err,
            Some(p) => (res is Ok ==> program_checks(p))
                && (res matches Ok(ir) ==> functions_generated(ir.functions@, generated_functions(p.defs@)))
                && (res matches Ok(ir) ==> exists|q: Program| defs_rewritten(scan_program(p).classes, scan_program(p).functions, p.defs@, q.defs@)
                    && bodies_generated(ir.functions@, generated_functions(q.defs@)))
                && (program_checks(p) ==> exists|q: Program| defs_rewritten(scan_program(p).classes, scan_program(p).functions, p.defs@, q.defs@)
                    && (program_cg_ok(scan_program(p).functions, q.defs@) ==> res is Ok)),
        }
    }
}

/// The report of a list of errors; a span that runs backwards is reported forwards.
fn report_errors(codemap: &crate::codemap::CodeMap, errors: Vec<FrontendError>) -> (res: String)
    ensures
        spans_ordered(errors@) ==> crate::codemap::realizes(
            crate::frontend_error::errors_pieces(codemap.spec_filename(), codemap.spec_lines(), errors@)
                + crate::codemap::paint(crate::frontend_error::summary_text(errors@.len())),
            res@,
        ),
{
    if spans_are_ordered(&errors) {
        format_errors(codemap, &errors)
    } else {
        let fwd = forward_spans(errors);
        format_errors(codemap, &fwd)
    }
}

/// Compiles the source `code` of file `filename` to IR: comments are erased, `grammar` reads
/// the text, the program is checked, and code is generated. Any error comes back as the
/// report that the code map writes for it; a span that runs backwards is reported forwards.
pub fn compile<G: Fn(&str) -> (Option<Program>, Vec<FrontendError>)>(filename: &str, code: &str, grammar: G) -> (res: Result<ir::Program, String>)
    requires
        forall|c: &str| #[trigger] grammar.requires((c,)),
        forall|c: &str, r: (Option<Program>, Vec<FrontendError>)| #[trigger] grammar.ensures((c,), r)
            ==> (r.1@.len() == 0 && r.0 is Some ==> analyzable(r.0->0)),
    ensures
        scan(crate::codemap::expand_tabs(code@)).erasing && scan(crate::codemap::expand_tabs(code@)).multiline ==> res is Err,
        !(scan(crate::codemap::expand_tabs(code@)).erasing && scan(crate::codemap::expand_tabs(code@)).multiline) ==> exists|c: &str, r: (Option<Program>, Vec<FrontendError>)|
            c@ == scan(crate::codemap::expand_tabs(code@)).result && #[trigger] grammar.ensures((c,), r)
                && compile_outcome(filename@, code@, r.0, r.1@, res),
        res matches Ok(p) ==> program_wf(p),
{
    let codemap = crate::codemap::CodeMap::new(filename, code);
    let ghost text = crate::codemap::expand_tabs(code@);
    let parsed = crate::parser::parse(&codemap, grammar);
    let ghost w: (&str, (Option<Program>, Vec<FrontendError>)) = choose|c: &str, r: (Option<Program>, Vec<FrontendError>)|
        c@ == scan(text).result && #[trigger] grammar.ensures((c,), r)
            && crate::parser::parse_outcome_is(crate::text::byte_len(c@), r.0, r.1@, parsed);
    let mut ast = match parsed {
        Ok(a) => a,
        Err(e) => {
            let rep = report_errors(&codemap, e);
            proof {
                if !(scan(text).erasing && scan(text).multiline) {
                    assert(grammar.ensures((w.0,), w.1));
                    assert(compile_outcome(filename@, code@, w.1.0, w.1.1@, Err::<ir::Program, String>(rep)));
                }
            }
            return Err(rep);
        },
    };
    let ghost p0 = ast;
    proof {
        assert(grammar.ensures((w.0,), w.1));
        assert(w.1.1@.len() == 0 && w.1.0 == Some(p0));
    }
    let ghost st0 = scan_program(p0);
    let global_ctx = {
        let mut sem_anal = SemanticAnalyzer::new(&mut ast);
        match sem_anal.perform_full_analysis() {
            Ok(()) => {},
            Err(e) => {
                let rep = report_errors(&codemap, e);
                proof {
                    assert(compile_outcome(filename@, code@, w.1.0, w.1.1@, Err::<ir::Program, String>(rep)));
                }
                return Err(rep);
            },
        }
        match sem_anal.into_global_ctx() {
            Some(c) => c,
            None => return Err(String::new()),
        }
    };
    proof {
        lemma_defs_keep_signatures(st0.classes, st0.functions, p0.defs@, ast.defs@);
    }
    if !crate::codegen::check_class_names_distinct(&ast.defs) || !crate::codegen::check_classes_well_formed(&ast.defs) {
        proof {
            assert(program_checks(p0));
            if program_cg_ok(st0.functions, ast.defs@) {
                assert(crate::codegen::class_names_distinct(ast.defs@));
                assert(crate::codegen::classes_well_formed(ast.defs@));
            }
            assert(defs_rewritten(st0.classes, st0.functions, p0.defs@, ast.defs@));
        }
        let r = Err("Error: the code generator does not support this program".to_owned());
        proof {
            assert(compile_outcome(filename@, code@, w.1.0, w.1.1@, r));
        }
        return r;
    }
    let cg = crate::codegen::CodeGen::new(&ast, &global_ctx);
    match cg.generate_ir() {
        Some(prog) => {
            assert forall|i: int| 0 <= i < prog.functions@.len() implies function_wf(#[trigger] prog.functions@[i]) by {}
            proof {
                assert forall|i: int| 0 <= i < prog.functions@.len()
                    implies function_wf(#[trigger] prog.functions@[i])
                        && crate::codegen::function::signature_matches(prog.functions@[i], generated_functions(p0.defs@)[i]) by {
                    assert(same_signature(generated_functions(ast.defs@)[i], generated_functions(p0.defs@)[i]));
                }
                assert(program_checks(p0));
                assert(defs_rewritten(st0.classes, st0.functions, p0.defs@, ast.defs@));
                assert(bodies_generated(prog.functions@, generated_functions(ast.defs@)));
                assert(exists|q: Program| defs_rewritten(st0.classes, st0.functions, p0.defs@, q.defs@)
                    && bodies_generated(prog.functions@, generated_functions(q.defs@))) by {
                    assert(defs_rewritten(st0.classes, st0.functions, p0.defs@, ast.defs@)
                        && bodies_generated(prog.functions@, generated_functions(ast.defs@)));
                }
                assert(compile_outcome(filename@, code@, w.1.0, w.1.1@, Ok::<ir::Program, String>(prog)));
            }
            Ok(prog)
        },
        None => {
            let r = Err("Error: the code generator does not support this program".to_owned());
            proof {
                assert(defs_rewritten(st0.classes, st0.functions, p0.defs@, ast.defs@));
                assert(compile_outcome(filename@, code@, w.1.0, w.1.1@, r));
            }
            r
        },
    }
}

} // verus!
