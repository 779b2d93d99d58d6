use latte_compiler::model::ast::InnerType;
use latte_compiler::model::ir::{ArithOp, CmpOp, GlobalStrNum, Label, Operation, RegNum, Type, Value};

#[test]
fn type_text_of_source_types() {
    assert_eq!(Type::from_ast(&InnerType::Int).to_display_string(), "i32");
    assert_eq!(Type::from_ast(&InnerType::Bool).to_display_string(), "i1");
    assert_eq!(Type::from_ast(&InnerType::String).to_display_string(), "i8*");
    assert_eq!(Type::from_ast(&InnerType::Class("Point".to_string())).to_display_string(), "%.struct.Point*");
    assert_eq!(Type::from_ast(&InnerType::Array(Box::new(InnerType::Int))).to_display_string(), "i32*");
    assert_eq!(Type::from_ast(&InnerType::Void).to_display_string(), "void");
}

#[test]
fn value_text() {
    assert_eq!(Value::LitInt(-5).to_display_string(), "-5");
    assert_eq!(Value::LitInt(42).to_display_string(), "42");
    assert_eq!(Value::LitBool(true).to_display_string(), "1");
    assert_eq!(Value::LitBool(false).to_display_string(), "0");
    assert_eq!(Value::LitNullPtr.to_display_string(), "0");
    assert_eq!(Value::Register(RegNum(7), Type::Int).to_display_string(), "%.r7");
    assert_eq!(Value::GlobalRegister(GlobalStrNum(3)).to_display_string(), "@.str.3");
}

#[test]
fn operation_text() {
    let op = Operation::Arithmetic(RegNum(2), ArithOp::Div, Value::Register(RegNum(0), Type::Int), Value::LitInt(3));
    assert_eq!(op.to_display_string(), "%.r2 = sdiv i32 %.r0, 3");
    let op = Operation::Compare(RegNum(4), CmpOp::LE, Value::LitInt(1), Value::LitInt(2));
    assert_eq!(op.to_display_string(), "%.r4 = icmp sle i32 1, 2");
    let op = Operation::Branch2(Value::Register(RegNum(3), Type::Bool), Label(1), Label(2));
    assert_eq!(op.to_display_string(), "br i1 %.r3, label %.L1, label %.L2");
    let op = Operation::Branch1(Label(9));
    assert_eq!(op.to_display_string(), "br label %.L9");
    let op = Operation::Return(None);
    assert_eq!(op.to_display_string(), "ret void");
    let op = Operation::Return(Some(Value::LitBool(true)));
    assert_eq!(op.to_display_string(), "ret i1 1");
    let op = Operation::CastGlobalString(RegNum(1), 6, GlobalStrNum(0));
    assert_eq!(op.to_display_string(), "%.r1 = getelementptr [6 x i8], [6 x i8]* @.str.0, i32 0, i32 0");
    let op = Operation::FunctionCall(
        Some(RegNum(5)),
        Type::Int,
        "add".to_string(),
        vec![Value::LitInt(1), Value::Register(RegNum(2), Type::Int)],
    );
    assert_eq!(op.to_display_string(), "%.r5 = call i32 @add(i32 1, i32 %.r2)");
    let op = Operation::FunctionCall(None, Type::Void, "printInt".to_string(), vec![Value::LitInt(1)]);
    assert_eq!(op.to_display_string(), "call void @printInt(i32 1)");
}
