use latte_compiler::codegen::class::{get_size_of_primitive, ClassRegistry};
use latte_compiler::codegen::function::{Env, FunctionCodeGen};
use latte_compiler::codegen::{check_class_names_distinct, check_classes_well_formed, CodeGen};
use latte_compiler::compile;
use latte_compiler::frontend_error::FrontendError;
use latte_compiler::model::ast::{
    new_spanned, new_spanned_boxed, BinaryOp, Block, ClassDef, Expr, FunDef, Ident, InnerClassItemDef, InnerExpr,
    InnerStmt, InnerType, Program, Stmt, TopDef, Type,
};
use latte_compiler::model::ir::{self, Label, RegNum, Value};
use latte_compiler::name_map::NameMap;
use latte_compiler::semantics::analyzer::SemanticAnalyzer;
use latte_compiler::semantics::global_context::GlobalContext;

fn ty(t: InnerType) -> Type {
    new_spanned(0, t, 1)
}

fn id(s: &str) -> Ident {
    new_spanned(0, s.to_string(), 1)
}

fn ex(e: InnerExpr) -> Box<Expr> {
    new_spanned_boxed(0, e, 1)
}

fn st(s: InnerStmt) -> Box<Stmt> {
    new_spanned_boxed(0, s, 1)
}

fn block(stmts: Vec<Box<Stmt>>) -> Block {
    Block { stmts, span: (0, 1) }
}

fn var(name: &str) -> InnerExpr {
    InnerExpr::LitVar(name.to_string())
}

fn call(name: &str, args: Vec<InnerExpr>) -> InnerExpr {
    InnerExpr::FunCall { function_name: id(name), args: args.into_iter().map(ex).collect() }
}

fn bin(l: InnerExpr, op: BinaryOp, r: InnerExpr) -> InnerExpr {
    InnerExpr::BinaryOp(ex(l), op, ex(r))
}

fn fun(ret: InnerType, name: &str, args: Vec<(InnerType, &str)>, stmts: Vec<Box<Stmt>>) -> FunDef {
    FunDef {
        ret_type: ty(ret),
        name: id(name),
        args: args.into_iter().map(|(t, n)| (ty(t), id(n))).collect(),
        body: block(stmts),
        span: (0, 1),
    }
}

fn class(name: &str, parent: Option<&str>, items: Vec<InnerClassItemDef>) -> ClassDef {
    ClassDef {
        name: id(name),
        parent_type: parent.map(|p| ty(InnerType::Class(p.to_string()))),
        items: items.into_iter().map(|i| new_spanned(0, i, 1)).collect(),
        span: (0, 1),
    }
}

fn main_returning(stmts: Vec<Box<Stmt>>) -> FunDef {
    fun(InnerType::Int, "main", vec![], stmts)
}

fn errors_of(p: &mut Program) -> Vec<String> {
    let mut an = SemanticAnalyzer::new(p);
    match an.perform_full_analysis() {
        Ok(()) => vec![],
        Err(e) => e.into_iter().map(|x| x.err).collect(),
    }
}

fn hello_program() -> Program {
    Program {
        defs: vec![TopDef::FunDef(main_returning(vec![
            st(InnerStmt::Expr(ex(call("printInt", vec![bin(InnerExpr::LitInt(1), BinaryOp::Add, InnerExpr::LitInt(2))])))),
            st(InnerStmt::Ret(Some(ex(InnerExpr::LitInt(0))))),
        ]))],
    }
}

fn ir_type(t: &ir::Type) -> String {
    t.to_display_string()
}

#[test]
fn valid_program_passes_analysis() {
    let mut p = hello_program();
    assert!(errors_of(&mut p).is_empty());
}

#[test]
fn missing_main_is_reported() {
    let mut p = Program { defs: vec![TopDef::FunDef(fun(InnerType::Void, "f", vec![], vec![]))] };
    assert_eq!(errors_of(&mut p), vec!["Error: main function not found".to_string()]);
}

#[test]
fn main_with_wrong_signature_is_reported() {
    let mut p = Program { defs: vec![TopDef::FunDef(fun(InnerType::Void, "main", vec![], vec![]))] };
    assert_eq!(
        errors_of(&mut p),
        vec!["Error: main function has invalid signature, it must return int and take no arguments".to_string()]
    );
}

#[test]
fn undefined_variable_is_reported() {
    let mut p = Program { defs: vec![TopDef::FunDef(main_returning(vec![st(InnerStmt::Ret(Some(ex(var("x")))))]))] };
    assert_eq!(errors_of(&mut p), vec!["Error: variable not defined".to_string()]);
}

#[test]
fn missing_return_is_reported() {
    let mut p = Program { defs: vec![TopDef::FunDef(main_returning(vec![]))] };
    assert_eq!(errors_of(&mut p), vec!["Error: detected potential execution path without return".to_string()]);
}

#[test]
fn redeclared_variable_is_reported() {
    let decl = || st(InnerStmt::Decl { var_type: ty(InnerType::Int), var_items: vec![(id("x"), None)] });
    let mut p = Program {
        defs: vec![TopDef::FunDef(main_returning(vec![decl(), decl(), st(InnerStmt::Ret(Some(ex(InnerExpr::LitInt(0)))))]))],
    };
    assert_eq!(errors_of(&mut p), vec!["Error: variable already defined in current scope".to_string()]);
}

#[test]
fn class_and_function_redefinitions_are_reported() {
    let p = Program {
        defs: vec![
            TopDef::ClassDef(class("A", None, vec![])),
            TopDef::ClassDef(class("A", None, vec![])),
            TopDef::FunDef(main_returning(vec![st(InnerStmt::Ret(Some(ex(InnerExpr::LitInt(0)))))])),
        ],
    };
    let errs: Vec<String> = GlobalContext::from(&p).err().unwrap().into_iter().map(|e| e.err).collect();
    assert_eq!(errs, vec!["Error: class redefinition".to_string()]);
    let p = Program {
        defs: vec![
            TopDef::FunDef(fun(InnerType::Void, "f", vec![], vec![])),
            TopDef::FunDef(fun(InnerType::Void, "f", vec![], vec![])),
        ],
    };
    let errs: Vec<String> = GlobalContext::from(&p).err().unwrap().into_iter().map(|e| e.err).collect();
    assert_eq!(errs, vec!["Error: function redefinition".to_string()]);
}

#[test]
fn inheritance_cycle_is_reported() {
    let p = Program {
        defs: vec![TopDef::ClassDef(class("A", Some("B"), vec![])), TopDef::ClassDef(class("B", Some("A"), vec![]))],
    };
    let errs: Vec<String> = GlobalContext::from(&p).err().unwrap().into_iter().map(|e| e.err).collect();
    assert!(!errs.is_empty());
    assert!(errs.iter().all(|e| e == "Error: detected cycle in inheritance chain"));
}

#[test]
fn subclass_relation_is_reflexive_and_transitive() {
    let p = Program {
        defs: vec![
            TopDef::ClassDef(class("A", None, vec![])),
            TopDef::ClassDef(class("B", Some("A"), vec![])),
            TopDef::ClassDef(class("C", Some("B"), vec![])),
        ],
    };
    let ctx = GlobalContext::from(&p).ok().unwrap();
    assert!(ctx.check_if_subclass("A", "A"));
    assert!(ctx.check_if_subclass("C", "C"));
    assert!(ctx.check_if_subclass("A", "B"));
    assert!(ctx.check_if_subclass("B", "C"));
    assert!(ctx.check_if_subclass("A", "C"));
    assert!(!ctx.check_if_subclass("C", "A"));
    assert!(!ctx.check_if_subclass("B", "A"));
}

#[test]
fn compatible_types() {
    let p = Program {
        defs: vec![TopDef::ClassDef(class("A", None, vec![])), TopDef::ClassDef(class("B", Some("A"), vec![]))],
    };
    let ctx = GlobalContext::from(&p).ok().unwrap();
    let a = InnerType::Class("A".to_string());
    let b = InnerType::Class("B".to_string());
    assert!(ctx.check_types_compatibility(&a, &a, (0, 1)).is_ok());
    assert!(ctx.check_types_compatibility(&a, &b, (0, 1)).is_ok());
    assert!(ctx.check_types_compatibility(&a, &InnerType::Null, (0, 1)).is_ok());
    let errs = ctx.check_types_compatibility(&b, &a, (0, 1)).err().unwrap();
    assert_eq!(errs[0].err, "Error: expected type B, got type A (note: A is not a subclass of B)");
    let errs = ctx.check_types_compatibility(&InnerType::Int, &InnerType::Bool, (0, 1)).err().unwrap();
    assert_eq!(errs[0].err, "Error: expected type int, got type boolean");
}

#[test]
fn compile_generates_llvm_text() {
    let res = compile("t.lat", "int main() { printInt(1 + 2); return 0; }", |_code: &str| (Some(hello_program()), vec![]));
    let text = res.ok().unwrap().to_display_string();
    let expected_fun = "define i32 @main() {\n.L0:\n    %.r0 = add i32 1, 2\n    call void @printInt(i32 %.r0)\n    ret i32 0\n}\n\n";
    assert!(text.starts_with("declare void @printInt(i32)\ndeclare void @printString(i8*)\n"));
    assert!(text.ends_with(&format!("\n\n{}", expected_fun)));
}

fn straight_line_program() -> Program {
    Program {
        defs: vec![TopDef::FunDef(main_returning(vec![
            st(InnerStmt::Decl { var_type: ty(InnerType::Int), var_items: vec![(id("x"), Some(ex(InnerExpr::LitInt(1)))), (id("y"), None)] }),
            st(InnerStmt::Assign(ex(var("x")), ex(bin(var("x"), BinaryOp::Add, InnerExpr::LitInt(2))))),
            st(InnerStmt::Incr(ex(var("y")))),
            st(InnerStmt::Expr(ex(call("printInt", vec![var("x")])))),
            st(InnerStmt::Ret(Some(ex(var("y"))))),
        ]))],
    }
}

#[test]
fn straight_line_variables_are_generated() {
    let res = compile("t.lat", "", |_code: &str| (Some(straight_line_program()), vec![]));
    let text = res.ok().unwrap().to_display_string();
    let expected_fun = "define i32 @main() {\n.L0:\n    %.r0 = add i32 1, 2\n    %.r1 = add i32 0, 1\n    call void @printInt(i32 %.r0)\n    ret i32 %.r1\n}\n\n";
    assert!(text.ends_with(&format!("\n\n{}", expected_fun)));
}

#[test]
fn inner_blocks_see_and_shadow_outer_variables() {
    let gctx = GlobalContext::new_with_builtins();
    let inner = block(vec![
        st(InnerStmt::Decl { var_type: ty(InnerType::Bool), var_items: vec![(id("a"), Some(ex(InnerExpr::LitBool(true))))] }),
        st(InnerStmt::Assign(ex(var("b")), ex(InnerExpr::LitInt(7)))),
    ]);
    let f = fun(
        InnerType::Int,
        "g",
        vec![(InnerType::Int, "a"), (InnerType::Int, "b")],
        vec![st(InnerStmt::Block(inner)), st(InnerStmt::Ret(Some(ex(bin(var("a"), BinaryOp::Add, var("b"))))))],
    );
    let (fun_ir, _) = FunctionCodeGen::new(&gctx, None, NameMap::new()).generate_function_ir(&f).unwrap();
    assert_eq!(
        fun_ir.to_display_string(),
        "define private i32 @g(i32 %.r0, i32 %.r1) {\n.L0:\n    br label %.L1\n.L1:\n    br label %.L2\n.L2:\n    %.r2 = add i32 %.r0, 7\n    ret i32 %.r2\n}\n\n"
    );
}

fn one_armed_if_program(declare_in_branch: bool) -> Program {
    let decl = st(InnerStmt::Decl { var_type: ty(InnerType::Int), var_items: vec![(id("x"), Some(ex(call("readInt", vec![]))))] });
    let mut branch = vec![st(InnerStmt::Assign(ex(var("x")), ex(InnerExpr::LitInt(1))))];
    if declare_in_branch {
        branch.push(st(InnerStmt::Decl { var_type: ty(InnerType::Int), var_items: vec![(id("y"), None)] }));
    }
    let cond = st(InnerStmt::Cond {
        cond: ex(bin(var("x"), BinaryOp::GT, InnerExpr::LitInt(0))),
        true_branch: block(branch),
        false_branch: None,
    });
    Program {
        defs: vec![TopDef::FunDef(main_returning(vec![decl, cond, st(InnerStmt::Ret(Some(ex(var("x")))))]))],
    }
}

#[test]
fn one_armed_if_jumps_past_its_branch() {
    let prog = compile("t.lat", "", |_code: &str| (Some(one_armed_if_program(false)), vec![])).ok().unwrap();
    let f = &prog.functions[0];
    assert_eq!(
        f.to_display_string(),
        "define i32 @main() {\n.L0:\n    %.r0 = call i32 @readInt()\n    %.r1 = icmp sgt i32 %.r0, 0\n    br i1 %.r1, label %.L1, label %.L2\n.L1:\n    br label %.L2\n.L2:\n    ret i32 1\n}\n\n"
    );
    assert_eq!(f.blocks[2].predecessors.iter().map(|l| l.0).collect::<Vec<_>>(), vec![0, 1]);
}

#[test]
fn declarations_in_a_branch_are_refused() {
    let res = compile("t.lat", "", |_code: &str| (Some(one_armed_if_program(true)), vec![]));
    assert_eq!(res.err().unwrap(), "Error: the code generator does not support this program");
}

#[test]
fn compile_reports_syntax_errors() {
    let res = compile("t.lat", "garbage", |_code: &str| {
        (None, vec![FrontendError { err: "Syntax error".to_string(), span: (0, 3) }])
    });
    let msg = res.err().unwrap().replace("\x1b[1;31m", "").replace("\x1b[0m", "");
    assert!(msg.contains("Syntax error"));
    assert!(msg.ends_with("Found 1 error(s) in total."));
}

#[test]
fn compile_reports_semantic_errors() {
    let res = compile("t.lat", "void f() {}", |_code: &str| {
        (Some(Program { defs: vec![TopDef::FunDef(fun(InnerType::Void, "f", vec![], vec![]))] }), vec![])
    });
    let msg = res.err().unwrap().replace("\x1b[1;31m", "").replace("\x1b[0m", "");
    assert!(msg.contains("Error: main function not found"));
}

#[test]
fn compile_reports_unclosed_comment() {
    let res = compile("t.lat", "int main() { /* ", |_code: &str| (Some(hello_program()), vec![]));
    let msg = res.err().unwrap().replace("\x1b[1;31m", "").replace("\x1b[0m", "");
    assert!(msg.contains("Multiline comment must be closed before EOF"));
}

fn strings_program() -> Program {
    Program {
        defs: vec![TopDef::FunDef(main_returning(vec![
            st(InnerStmt::Expr(ex(call("printString", vec![InnerExpr::LitStr("hi \"x\"".to_string())])))),
            st(InnerStmt::Expr(ex(call("printString", vec![InnerExpr::LitStr("hi \"x\"".to_string())])))),
            st(InnerStmt::Ret(Some(ex(InnerExpr::LitInt(0))))),
        ]))],
    }
}

#[test]
fn string_literals_become_global_strings() {
    let prog = compile("t.lat", "", |_code: &str| (Some(strings_program()), vec![])).ok().unwrap();
    assert_eq!(prog.global_strings.len(), 1);
    let text = prog.to_display_string();
    assert!(text.contains("@.str.0 = private constant [7 x i8] c\"hi \\22x\\22\\00\"\n"));
    assert!(text.contains(
        ".L0:\n    %.r0 = getelementptr [7 x i8], [7 x i8]* @.str.0, i32 0, i32 0\n    call void @printString(i8* %.r0)\n    %.r2 = getelementptr [7 x i8], [7 x i8]* @.str.0, i32 0, i32 0\n    call void @printString(i8* %.r2)\n    ret i32 0\n"
    ));
}

fn counting_program() -> Program {
    let decl = st(InnerStmt::Decl { var_type: ty(InnerType::Int), var_items: vec![(id("x"), Some(ex(InnerExpr::LitInt(0))))] });
    let body = block(vec![st(InnerStmt::Incr(ex(var("x"))))]);
    let lp = st(InnerStmt::While(ex(bin(var("x"), BinaryOp::LT, InnerExpr::LitInt(10))), body));
    Program {
        defs: vec![TopDef::FunDef(main_returning(vec![decl, lp, st(InnerStmt::Ret(Some(ex(var("x")))))]))],
    }
}

#[test]
fn while_loop_gets_a_phi_function() {
    let prog = compile("t.lat", "", |_code: &str| (Some(counting_program()), vec![])).ok().unwrap();
    let f = &prog.functions[0];
    assert_eq!(f.blocks.len(), 4);
    for (i, b) in f.blocks.iter().enumerate() {
        assert_eq!(b.label.0 as usize, i);
    }
    let text = f.to_display_string();
    assert!(text.contains(".L1:\n    %.r0 = phi i32 [0, %.L0], [%.r2, %.L2]\n    %.r1 = icmp slt i32 %.r0, 10\n    br i1 %.r1, label %.L2, label %.L3\n"));
    assert!(text.contains(".L2:\n    %.r2 = add i32 %.r0, 1\n    br label %.L1\n"));
    assert!(text.contains(".L3:\n    ret i32 %.r2\n"));
    assert_eq!(f.blocks[1].predecessors.len(), 2);
}

#[test]
fn phi_functions_take_one_value_per_predecessor() {
    let prog = compile("t.lat", "", |_code: &str| (Some(counting_program()), vec![])).ok().unwrap();
    let mut phis = 0;
    for b in prog.functions[0].blocks.iter() {
        for phi in b.phi_set.iter() {
            let incoming: Vec<u32> = phi.2.iter().map(|e| e.1 .0).collect();
            let preds: Vec<u32> = b.predecessors.iter().map(|l| l.0).collect();
            assert_eq!(incoming, preds);
            phis += 1;
        }
    }
    assert_eq!(phis, 1);
}

fn branching_program() -> Program {
    let decl = st(InnerStmt::Decl { var_type: ty(InnerType::Int), var_items: vec![(id("x"), Some(ex(InnerExpr::LitInt(1))))] });
    let cond = st(InnerStmt::Cond {
        cond: ex(bin(call("readInt", vec![]), BinaryOp::GT, InnerExpr::LitInt(0))),
        true_branch: block(vec![st(InnerStmt::Assign(ex(var("x")), ex(InnerExpr::LitInt(2))))]),
        false_branch: Some(block(vec![st(InnerStmt::Assign(ex(var("x")), ex(InnerExpr::LitInt(3))))])),
    });
    Program {
        defs: vec![TopDef::FunDef(main_returning(vec![decl, cond, st(InnerStmt::Ret(Some(ex(var("x")))))]))],
    }
}

#[test]
fn if_else_branches_join_in_a_new_block() {
    let prog = compile("t.lat", "", |_code: &str| (Some(branching_program()), vec![])).ok().unwrap();
    let f = &prog.functions[0];
    assert_eq!(f.blocks.len(), 4);
    let text = f.to_display_string();
    assert!(text.contains(".L0:\n    %.r0 = call i32 @readInt()\n    %.r1 = icmp sgt i32 %.r0, 0\n    br i1 %.r1, label %.L1, label %.L2\n"));
    assert!(text.contains(".L1:\n    br label %.L3\n"));
    assert!(text.contains(".L2:\n    br label %.L3\n"));
    assert_eq!(f.blocks[3].predecessors.iter().map(|l| l.0).collect::<Vec<_>>(), vec![2, 1]);
    assert!(text.contains(".L3:\n    ret i32 3\n"));
}

#[test]
fn parameters_get_the_first_registers() {
    let gctx = GlobalContext::new_with_builtins();
    let f = fun(
        InnerType::Int,
        "add",
        vec![(InnerType::Int, "a"), (InnerType::Bool, "b")],
        vec![st(InnerStmt::Ret(Some(ex(var("a")))))],
    );
    let (fun_ir, strings) = FunctionCodeGen::new(&gctx, None, NameMap::new()).generate_function_ir(&f).unwrap();
    assert_eq!(strings.len(), 0);
    assert_eq!(fun_ir.args.len(), 2);
    assert_eq!(fun_ir.args[0].0 .0, 0);
    assert_eq!(fun_ir.args[1].0 .0, 1);
    assert_eq!(ir_type(&fun_ir.args[1].1), "i1");
    assert_eq!(fun_ir.to_display_string(), "define private i32 @add(i32 %.r0, i1 %.r1) {\n.L0:\n    ret i32 %.r0\n}\n\n");
}

#[test]
fn unsupported_constructs_are_refused() {
    let gctx = GlobalContext::new_with_builtins();
    let f = fun(
        InnerType::Void,
        "f",
        vec![],
        vec![st(InnerStmt::Expr(ex(InnerExpr::NewObject(ty(InnerType::Class("A".to_string()))))))],
    );
    assert!(FunctionCodeGen::new(&gctx, None, NameMap::new()).generate_function_ir(&f).is_none());
}

#[test]
fn frames_find_the_nearest_declaration() {
    let gctx = GlobalContext::new_with_builtins();
    let mut env = Env::new(&gctx, None);
    env.allocate_new_frame(Label(0), Label(u32::MAX));
    env.allocate_new_frame(Label(1), Label(0));
    assert!(env.add_new_local_variable(Label(0), "x", Value::LitInt(1)));
    assert!(!env.add_new_local_variable(Label(0), "x", Value::LitInt(5)));
    assert_eq!(env.get_variable(Label(1), "x").unwrap().to_display_string(), "1");
    assert!(env.update_existing_local_variable(Label(1), "x", Value::LitInt(2)));
    assert_eq!(env.get_variable(Label(0), "x").unwrap().to_display_string(), "2");
    assert!(!env.update_existing_local_variable(Label(1), "y", Value::LitInt(2)));
    assert!(env.get_variable(Label(1), "y").is_none());
    assert!(env.add_new_local_variable(Label(1), "x", Value::LitBool(true)));
    assert_eq!(env.get_variable(Label(1), "x").unwrap().to_display_string(), "1");
    assert_eq!(env.get_variable(Label(0), "x").unwrap().to_display_string(), "2");
    let names = env.get_all_visible_local_variables(Label(1));
    assert_eq!(names, vec!["x".to_string()]);
    assert!(env.get_function("printInt").is_some());
    assert!(env.get_function("nope").is_none());
}

#[test]
fn class_layouts_extend_their_parents() {
    let a = class(
        "A",
        None,
        vec![
            InnerClassItemDef::Field(ty(InnerType::Int), id("x")),
            InnerClassItemDef::Method(fun(InnerType::Void, "f", vec![], vec![])),
        ],
    );
    let b = class(
        "B",
        Some("A"),
        vec![
            InnerClassItemDef::Field(ty(InnerType::Bool), id("y")),
            InnerClassItemDef::Method(fun(InnerType::Void, "g", vec![(InnerType::Int, "n")], vec![])),
            InnerClassItemDef::Method(fun(InnerType::Void, "f", vec![], vec![])),
        ],
    );
    let mut reg = ClassRegistry::new();
    reg.process_class_def(&a);
    reg.process_class_def(&b);
    let mut prog = ir::Program { structs: vec![], functions: vec![], global_strings: NameMap::new() };
    reg.insert_classes_ir_into(&mut prog);
    assert_eq!(prog.structs.len(), 2);
    let sa = &prog.structs[0];
    let sb = &prog.structs[1];
    assert_eq!(sa.name, "A");
    assert_eq!(sa.fields.iter().map(ir_type).collect::<Vec<_>>(), vec!["%.struct.A.vtable*", "i32"]);
    assert_eq!(sb.fields.iter().map(ir_type).collect::<Vec<_>>(), vec!["%.struct.B.vtable*", "i32", "i1"]);
    assert_eq!(sa.vtable.len(), 1);
    assert_eq!(sa.vtable[0].2, "A.f");
    assert_eq!(sb.vtable.len(), 2);
    assert_eq!(sb.vtable[0].2, "B.f");
    assert_eq!(sb.vtable[1].2, "B.g");
    assert_eq!(sb.vtable[1].1.iter().map(ir_type).collect::<Vec<_>>(), vec!["%.struct.B*", "i32"]);
}

#[test]
fn code_generation_lays_out_classes_breadth_first() {
    let p = Program {
        defs: vec![
            TopDef::ClassDef(class("C", Some("B"), vec![])),
            TopDef::ClassDef(class("B", Some("A"), vec![])),
            TopDef::ClassDef(class("A", None, vec![InnerClassItemDef::Field(ty(InnerType::Int), id("v"))])),
            TopDef::FunDef(main_returning(vec![st(InnerStmt::Ret(Some(ex(InnerExpr::LitInt(0)))))])),
        ],
    };
    assert!(check_class_names_distinct(&p.defs));
    assert!(check_classes_well_formed(&p.defs));
    let gctx = GlobalContext::from(&p).ok().unwrap();
    let prog = CodeGen::new(&p, &gctx).generate_ir().unwrap();
    let names: Vec<String> = prog.structs.iter().map(|s| s.name.clone()).collect();
    assert_eq!(names, vec!["A".to_string(), "B".to_string(), "C".to_string()]);
    assert_eq!(prog.structs[2].fields.iter().map(ir_type).collect::<Vec<_>>(), vec!["%.struct.C.vtable*", "i32"]);
    assert_eq!(prog.functions.len(), 1);
}

#[test]
fn duplicate_class_names_are_detected() {
    let defs = vec![TopDef::ClassDef(class("A", None, vec![])), TopDef::ClassDef(class("A", None, vec![]))];
    assert!(!check_class_names_distinct(&defs));
    let defs = vec![TopDef::ClassDef(ClassDef {
        name: id("A"),
        parent_type: Some(ty(InnerType::Int)),
        items: vec![],
        span: (0, 1),
    })];
    assert!(!check_classes_well_formed(&defs));
}

#[test]
fn primitive_sizes() {
    assert_eq!(get_size_of_primitive(&ir::Type::Int), 4);
    assert_eq!(get_size_of_primitive(&ir::Type::Bool), 1);
    assert_eq!(get_size_of_primitive(&ir::Type::Char), 1);
    assert_eq!(get_size_of_primitive(&ir::Type::Ptr(Box::new(ir::Type::Int))), 8);
}

#[test]
fn value_types() {
    assert_eq!(Value::LitInt(3).get_type().to_display_string(), "i32");
    assert_eq!(Value::LitNullPtr.get_type().to_display_string(), "void*");
    assert_eq!(Value::GlobalRegister(ir::GlobalStrNum(0)).get_type().to_display_string(), "i8*");
    assert_eq!(Value::Register(RegNum(1), ir::Type::Bool).get_type().to_display_string(), "i1");
}

fn defined_registers(f: &ir::Function) -> Vec<u32> {
    let mut defs = Vec::new();
    for b in f.blocks.iter() {
        for phi in b.phi_set.iter() {
            defs.push(phi.0 .0);
        }
        for op in b.body.iter() {
            match op {
                ir::Operation::FunctionCall(Some(r), _, _, _)
                | ir::Operation::Arithmetic(r, _, _, _)
                | ir::Operation::Compare(r, _, _, _)
                | ir::Operation::GetElementPtr(r, _, _, _)
                | ir::Operation::CastGlobalString(r, _, _) => defs.push(r.0),
                _ => {}
            }
        }
    }
    defs
}

#[test]
fn every_register_is_defined_once() {
    for which in 0..2 {
        let make = move || if which == 0 { counting_program() } else { branching_program() };
        let out = compile("t.lat", "", move |_code: &str| (Some(make()), vec![])).ok().unwrap();
        let defs = defined_registers(&out.functions[0]);
        let mut sorted = defs.clone();
        sorted.sort();
        sorted.dedup();
        assert_eq!(sorted.len(), defs.len());
        assert!(defs.len() >= 2);
    }
}

#[test]
fn field_names_in_methods_become_accesses_through_this() {
    let get = fun(InnerType::Int, "get", vec![], vec![st(InnerStmt::Ret(Some(ex(var("x")))))]);
    let c = class("C", None, vec![InnerClassItemDef::Field(ty(InnerType::Int), id("x")), InnerClassItemDef::Method(get)]);
    let mut p = Program {
        defs: vec![TopDef::ClassDef(c), TopDef::FunDef(main_returning(vec![st(InnerStmt::Ret(Some(ex(InnerExpr::LitInt(0)))))]))],
    };
    assert!(errors_of(&mut p).is_empty());
    let TopDef::ClassDef(c) = &p.defs[0] else { panic!("class expected") };
    let InnerClassItemDef::Method(m) = &c.items[1].inner else { panic!("method expected") };
    let InnerStmt::Ret(Some(e)) = &m.body.stmts[0].inner else { panic!("return expected") };
    match &e.inner {
        InnerExpr::ObjField { obj, is_obj_an_array, field } => {
            assert!(matches!(&obj.inner, InnerExpr::LitVar(s) if s == "this"));
            assert_eq!(*is_obj_an_array, Some(false));
            assert_eq!(field.inner, "x");
        },
        _ => panic!("field access expected"),
    }
}

#[test]
fn null_given_to_a_class_variable_is_converted() {
    let decl = st(InnerStmt::Decl {
        var_type: ty(InnerType::Class("C".to_string())),
        var_items: vec![(id("c"), Some(ex(InnerExpr::LitNull)))],
    });
    let mut p = Program {
        defs: vec![
            TopDef::ClassDef(class("C", None, vec![])),
            TopDef::FunDef(main_returning(vec![decl, st(InnerStmt::Ret(Some(ex(InnerExpr::LitInt(0)))))])),
        ],
    };
    assert!(errors_of(&mut p).is_empty());
    let TopDef::FunDef(f) = &p.defs[1] else { panic!("function expected") };
    let InnerStmt::Decl { var_items, .. } = &f.body.stmts[0].inner else { panic!("declaration expected") };
    match &var_items[0].1.as_ref().unwrap().inner {
        InnerExpr::CastType(sub, t) => {
            assert!(matches!(sub.inner, InnerExpr::LitNull));
            assert!(matches!(t, InnerType::Class(n) if n == "C"));
        },
        _ => panic!("conversion expected"),
    }
}

#[test]
fn generated_functions_follow_the_definitions() {
    let prog = compile("t.lat", "", |_code: &str| {
        (
            Some(Program {
                defs: vec![
                    TopDef::FunDef(fun(InnerType::Void, "helper", vec![(InnerType::Int, "a"), (InnerType::Bool, "b")], vec![])),
                    TopDef::FunDef(main_returning(vec![st(InnerStmt::Ret(Some(ex(InnerExpr::LitInt(0)))))])),
                ],
            }),
            vec![],
        )
    })
    .ok()
    .unwrap();
    assert_eq!(prog.functions.len(), 2);
    assert_eq!(prog.functions[0].name, "helper");
    assert_eq!(prog.functions[0].args.len(), 2);
    assert_eq!(prog.functions[1].name, "main");
}

fn read_registers(f: &ir::Function) -> Vec<u32> {
    let mut reads = Vec::new();
    let mut note = |v: &Value, reads: &mut Vec<u32>| {
        if let Value::Register(r, t) = v {
            if !matches!(t, ir::Type::Void) {
                reads.push(r.0);
            }
        }
    };
    for b in f.blocks.iter() {
        for phi in b.phi_set.iter() {
            for (v, _) in phi.2.iter() {
                note(v, &mut reads);
            }
        }
        for op in b.body.iter() {
            match op {
                ir::Operation::Return(Some(v)) | ir::Operation::Branch2(v, _, _) => note(v, &mut reads),
                ir::Operation::FunctionCall(_, _, _, args) => {
                    for v in args.iter() {
                        note(v, &mut reads);
                    }
                },
                ir::Operation::Arithmetic(_, _, a, b)
                | ir::Operation::Compare(_, _, a, b)
                | ir::Operation::GetElementPtr(_, _, a, b) => {
                    note(a, &mut reads);
                    note(b, &mut reads);
                },
                _ => {},
            }
        }
    }
    reads
}

#[test]
fn every_read_register_is_defined_or_a_parameter() {
    let gctx = GlobalContext::new_with_builtins();
    let body = vec![
        st(InnerStmt::While(
            ex(bin(var("a"), BinaryOp::LT, InnerExpr::LitInt(10))),
            block(vec![st(InnerStmt::Incr(ex(var("a"))))]),
        )),
        st(InnerStmt::Ret(Some(ex(bin(var("a"), BinaryOp::Add, var("b")))))),
    ];
    let f = fun(InnerType::Int, "f", vec![(InnerType::Int, "a"), (InnerType::Int, "b")], body);
    let (fun_ir, _) = FunctionCodeGen::new(&gctx, None, NameMap::new()).generate_function_ir(&f).unwrap();
    let defs = defined_registers(&fun_ir);
    let reads = read_registers(&fun_ir);
    assert!(reads.contains(&1));
    for r in reads {
        assert!(defs.contains(&r) || r < 2, "register {} is read but never defined", r);
    }
}

#[test]
fn a_loop_that_may_not_run_does_not_count_as_returning() {
    let lp = st(InnerStmt::While(ex(var("c")), block(vec![st(InnerStmt::Ret(Some(ex(InnerExpr::LitInt(1)))))])));
    let f = fun(InnerType::Int, "f", vec![(InnerType::Bool, "c")], vec![lp]);
    let mut p = Program {
        defs: vec![TopDef::FunDef(f), TopDef::FunDef(main_returning(vec![st(InnerStmt::Ret(Some(ex(InnerExpr::LitInt(0)))))]))],
    };
    assert_eq!(errors_of(&mut p), vec!["Error: detected potential execution path without return".to_string()]);
}

#[test]
fn an_endless_loop_counts_as_returning() {
    let lp = st(InnerStmt::While(ex(InnerExpr::LitBool(true)), block(vec![])));
    let mut p = Program { defs: vec![TopDef::FunDef(main_returning(vec![lp]))] };
    assert!(errors_of(&mut p).is_empty());
}

#[test]
fn a_rejected_operator_is_reported_with_its_operands() {
    let e = bin(InnerExpr::LitInt(1), BinaryOp::Add, InnerExpr::LitBool(true));
    let mut p = Program { defs: vec![TopDef::FunDef(main_returning(vec![st(InnerStmt::Ret(Some(ex(e))))]))] };
    assert_eq!(
        errors_of(&mut p),
        vec!["Error: binary operator '+' can be applied only to two integer expressions (sum) or two string expressions (concatenation)".to_string()]
    );
}

#[test]
fn a_wrong_argument_count_is_reported() {
    let e = call("printInt", vec![]);
    let mut p = Program {
        defs: vec![TopDef::FunDef(main_returning(vec![
            st(InnerStmt::Expr(ex(e))),
            st(InnerStmt::Ret(Some(ex(InnerExpr::LitInt(0))))),
        ]))],
    };
    assert_eq!(errors_of(&mut p), vec!["Error: expected 1 argument(s), got 0.".to_string()]);
}

#[test]
fn a_returned_operation_keeps_its_operand_order() {
    let gctx = GlobalContext::new_with_builtins();
    let f = fun(InnerType::Int, "sub", vec![(InnerType::Int, "a"), (InnerType::Int, "b")],
        vec![st(InnerStmt::Ret(Some(ex(bin(var("a"), BinaryOp::Sub, var("b"))))))]);
    let (fun_ir, _) = FunctionCodeGen::new(&gctx, None, NameMap::new()).generate_function_ir(&f).unwrap();
    assert!(fun_ir.to_display_string().contains("    %.r2 = sub i32 %.r0, %.r1\n    ret i32 %.r2\n"));
}
