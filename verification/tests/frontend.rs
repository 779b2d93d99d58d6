use latte_compiler::codemap::{paint_error, CodeMap};
use latte_compiler::frontend_error::{format_errors, ok_if_no_error, FrontendError};
use latte_compiler::model::ast::{new_spanned, new_spanned_boxed, BinaryOp, InnerExpr, InnerStmt, InnerUnaryOp, Program};
use latte_compiler::parser::{optimize_const_expr_shallow, parse, parse_outcome, replace_comments, return_or_fail, stmt_to_block};
use latte_compiler::text::{byte_length, str_eq};

fn lit_int(v: i32) -> InnerExpr {
    InnerExpr::LitInt(v)
}

fn bin(l: InnerExpr, op: BinaryOp, r: InnerExpr) -> InnerExpr {
    InnerExpr::BinaryOp(new_spanned_boxed(0, l, 1), op, new_spanned_boxed(2, r, 3))
}

fn is_int(e: &InnerExpr, v: i32) -> bool {
    matches!(e, InnerExpr::LitInt(x) if *x == v)
}

fn is_bool(e: &InnerExpr, v: bool) -> bool {
    matches!(e, InnerExpr::LitBool(x) if *x == v)
}

#[test]
fn line_comments_become_spaces() {
    assert_eq!(replace_comments("a // b\nc").ok().unwrap(), "a     \nc");
    assert_eq!(replace_comments("x # y\nz").ok().unwrap(), "x    \nz");
}

#[test]
fn block_comments_keep_line_breaks() {
    assert_eq!(replace_comments("a/*b\nc*/d").ok().unwrap(), "a   \n   d");
}

#[test]
fn comment_markers_inside_strings_stay() {
    assert_eq!(replace_comments("\"a//b\" // c").ok().unwrap(), "\"a//b\"     ");
    assert_eq!(replace_comments("\"q\\\"//\"x").ok().unwrap(), "\"q\\\"//\"x");
}

#[test]
fn replace_comments_keeps_every_position() {
    let code = "int main() { // entry\n  /* two\n lines */ return 0; # done\n}";
    let out = replace_comments(code).ok().unwrap();
    assert_eq!(out.chars().count(), code.chars().count());
    for (a, b) in out.chars().zip(code.chars()) {
        assert_eq!(a == '\n', b == '\n');
    }
}

#[test]
fn unclosed_block_comment_is_an_error() {
    let errs = replace_comments("x /* y").err().unwrap();
    assert_eq!(errs.len(), 1);
    assert_eq!(errs[0].err, "Multiline comment must be closed before EOF");
    assert_eq!(errs[0].span, (5, 6));
}

#[test]
fn constant_folding_of_integers() {
    let r = optimize_const_expr_shallow(bin(lit_int(2), BinaryOp::Add, lit_int(3))).ok().unwrap();
    assert!(is_int(&r, 5));
    let r = optimize_const_expr_shallow(bin(lit_int(7), BinaryOp::Div, lit_int(-2))).ok().unwrap();
    assert!(is_int(&r, -3));
    let r = optimize_const_expr_shallow(bin(lit_int(-7), BinaryOp::Mod, lit_int(2))).ok().unwrap();
    assert!(is_int(&r, -1));
    let r = optimize_const_expr_shallow(bin(lit_int(4), BinaryOp::Mul, lit_int(6))).ok().unwrap();
    assert!(is_int(&r, 24));
    let r = optimize_const_expr_shallow(bin(lit_int(1), BinaryOp::LT, lit_int(2))).ok().unwrap();
    assert!(is_bool(&r, true));
    let r = optimize_const_expr_shallow(bin(lit_int(1), BinaryOp::EQ, lit_int(2))).ok().unwrap();
    assert!(is_bool(&r, false));
}

#[test]
fn constant_folding_of_booleans_and_strings() {
    let r = optimize_const_expr_shallow(bin(InnerExpr::LitBool(true), BinaryOp::And, InnerExpr::LitBool(false))).ok().unwrap();
    assert!(is_bool(&r, false));
    let r = optimize_const_expr_shallow(bin(InnerExpr::LitBool(true), BinaryOp::Or, InnerExpr::LitBool(false))).ok().unwrap();
    assert!(is_bool(&r, true));
    let r = optimize_const_expr_shallow(bin(
        InnerExpr::LitStr("ab".to_string()),
        BinaryOp::Add,
        InnerExpr::LitStr("cd".to_string()),
    ))
    .ok()
    .unwrap();
    assert!(matches!(r, InnerExpr::LitStr(ref s) if s == "abcd"));
    let r = optimize_const_expr_shallow(bin(
        InnerExpr::LitStr("ab".to_string()),
        BinaryOp::EQ,
        InnerExpr::LitStr("ab".to_string()),
    ))
    .ok()
    .unwrap();
    assert!(is_bool(&r, true));
}

#[test]
fn constant_folding_of_unary_operators() {
    let r = optimize_const_expr_shallow(InnerExpr::UnaryOp(new_spanned(0, InnerUnaryOp::IntNeg, 1), new_spanned_boxed(1, lit_int(5), 2)))
        .ok()
        .unwrap();
    assert!(is_int(&r, -5));
    let r = optimize_const_expr_shallow(InnerExpr::UnaryOp(
        new_spanned(0, InnerUnaryOp::BoolNeg, 1),
        new_spanned_boxed(1, InnerExpr::LitBool(true), 2),
    ))
    .ok()
    .unwrap();
    assert!(is_bool(&r, false));
}

#[test]
fn constant_folding_leaves_other_expressions() {
    let r = optimize_const_expr_shallow(bin(InnerExpr::LitVar("x".to_string()), BinaryOp::Add, lit_int(1))).ok().unwrap();
    assert!(matches!(r, InnerExpr::BinaryOp(_, BinaryOp::Add, _)));
}

#[test]
fn constant_division_by_zero_is_an_error() {
    let r = optimize_const_expr_shallow(bin(lit_int(7), BinaryOp::Div, lit_int(0)));
    assert_eq!(r.err().unwrap(), "Assertion Error: Division by zero in constant expression");
}

#[test]
fn return_or_fail_records_the_error() {
    let mut errors = Vec::new();
    let e = return_or_fail(3, Err("bad"), 8, &mut errors);
    assert!(matches!(e.inner, InnerExpr::LitNull));
    assert_eq!(e.span, (3, 8));
    assert_eq!(errors.len(), 1);
    assert_eq!(errors[0].err, "bad");
    assert_eq!(errors[0].span, (3, 8));
    let e = return_or_fail(1, Ok(lit_int(4)), 2, &mut errors);
    assert!(is_int(&e.inner, 4));
    assert_eq!(errors.len(), 1);
}

#[test]
fn stmt_to_block_unwraps_blocks() {
    let inner = stmt_to_block(new_spanned_boxed(0, InnerStmt::Empty, 1));
    assert_eq!(inner.stmts.len(), 1);
    assert_eq!(inner.span, (0, 1));
    let outer = stmt_to_block(new_spanned_boxed(0, InnerStmt::Block(inner), 5));
    assert_eq!(outer.stmts.len(), 1);
    assert_eq!(outer.span, (0, 1));
}

#[test]
fn parse_outcome_cases() {
    let p = parse_outcome(10, Some(Program { defs: vec![] }), vec![]);
    assert!(p.is_ok());
    let errs = parse_outcome(10, Some(Program { defs: vec![] }), vec![FrontendError { err: "e".to_string(), span: (1, 2) }]);
    assert_eq!(errs.err().unwrap()[0].err, "e");
    let errs = parse_outcome(10, None, vec![]).err().unwrap();
    assert_eq!(errs.len(), 1);
    assert_eq!(errs[0].err, "Fatal syntax error: can not recognize anything");
    assert_eq!(errs[0].span, (0, 9));
}

#[test]
fn parse_hands_the_grammar_the_text_without_comments() {
    let codemap = CodeMap::new("t.lat", "int x; // c");
    let seen = std::cell::RefCell::new(String::new());
    let res = parse(&codemap, |text: &str| {
        *seen.borrow_mut() = text.to_string();
        (Some(Program { defs: vec![] }), vec![])
    });
    assert!(res.is_ok());
    assert_eq!(*seen.borrow(), "int x;     ");
    let codemap = CodeMap::new("t.lat", "/* open");
    let res = parse(&codemap, |_text: &str| (Some(Program { defs: vec![] }), vec![]));
    assert_eq!(res.err().unwrap()[0].err, "Multiline comment must be closed before EOF");
}

#[test]
fn painted_text_keeps_the_text() {
    let p = paint_error("boom");
    assert!(p == "boom" || p == "\x1b[1;31mboom\x1b[0m");
}

#[test]
fn byte_length_counts_utf8_bytes() {
    assert_eq!(byte_length("abc"), 3);
    assert_eq!(byte_length("é"), 2);
    assert!(str_eq("ab", "ab"));
    assert!(!str_eq("ab", "abc"));
}

#[test]
fn ok_if_no_error_cases() {
    assert!(ok_if_no_error(vec![]).is_ok());
    assert_eq!(ok_if_no_error(vec![FrontendError { err: "x".to_string(), span: (0, 1) }]).err().unwrap().len(), 1);
}

#[test]
fn error_report_names_the_place_and_counts() {
    let codemap = CodeMap::new("prog.lat", "int main() {\n  return x;\n}\n");
    let report = format_errors(&codemap, &vec![FrontendError { err: "Error: variable not defined".to_string(), span: (22, 23) }]);
    let plain = report.replace("\x1b[1;31m", "").replace("\x1b[0m", "");
    assert!(plain.contains("prog.lat:1:9:\n"));
    assert!(plain.contains("  return x;"));
    assert!(plain.contains("Error: variable not defined"));
    assert!(plain.ends_with("\nFound 1 error(s) in total."));
}

#[test]
fn row_and_column_of_positions() {
    let codemap = CodeMap::new("f", "ab\ncd\n");
    assert_eq!(codemap.find_row_col(0), Some((0, 0)));
    assert_eq!(codemap.find_row_col(4), Some((1, 1)));
    assert_eq!(codemap.find_row_col(100), None);
}

#[test]
fn empty_span_gives_the_message_alone() {
    let codemap = CodeMap::new("f", "abc");
    let m = codemap.format_message((1, 1), "note");
    let plain = m.replace("\x1b[1;31m", "").replace("\x1b[0m", "");
    assert_eq!(plain, "note\n\n");
}
