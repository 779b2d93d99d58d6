use vstd::prelude::*;
use crate::model::ast;
use crate::name_map::NameMap;
use crate::text::{append_str};

verus! {

/// The number of a basic block within its function.
#[derive(PartialEq, Eq, Structural, Clone, Copy)]
pub struct Label(pub u32);

/// The number of a virtual register within its function.
#[derive(PartialEq, Eq, Structural, Clone, Copy)]
pub struct RegNum(pub u32);

/// The number of a global string constant.
#[derive(PartialEq, Eq, Structural, Clone, Copy)]
pub struct GlobalStrNum(pub u32);

/// The types of the intermediate representation.
pub enum Type {
    Void,
    Int,
    Bool,
    Char,
    Ptr(Box<Type>),
    Struct(String),
}

/// Mathematical model of an IR type.
pub enum TypeModel {
    Void,
    Int,
    Bool,
    Char,
    Ptr(Box<TypeModel>),
    Struct(Seq<char>),
}

impl View for Type {
    type V = TypeModel;

    open spec fn view(&self) -> TypeModel
        decreases self,
    {
        match self {
            Type::Void => TypeModel::Void,
            Type::Int => TypeModel::Int,
            Type::Bool => TypeModel::Bool,
            Type::Char => TypeModel::Char,
            Type::Ptr(sub) => TypeModel::Ptr(Box::new((**sub)@)),
            Type::Struct(name) => TypeModel::Struct(name@),
        }
    }
}


impl Clone for Type {
    fn clone(&self) -> (res: Self)
        ensures
            res@ == self@,
        decreases self,
    {
        match self {
            Type::Void => Type::Void,
            Type::Int => Type::Int,
            Type::Bool => Type::Bool,
            Type::Char => Type::Char,
            Type::Ptr(sub) => Type::Ptr(Box::new((**sub).clone())),
            Type::Struct(name) => Type::Struct(name.clone()),
        }
    }
}

/// Compares two IR types by their models.
pub fn type_eq(a: &Type, b: &Type) -> (res: bool)
    ensures
        res == (a@ == b@),
    decreases a,
{
    match a {
        Type::Void => match b { Type::Void => true, _ => false },
        Type::Int => match b { Type::Int => true, _ => false },
        Type::Bool => match b { Type::Bool => true, _ => false },
        Type::Char => match b { Type::Char => true, _ => false },
        Type::Ptr(x) => match b {
            Type::Ptr(y) => type_eq(&**x, &**y),
            _ => false,
        },
        Type::Struct(x) => match b {
            Type::Struct(y) => *x == *y,
            _ => false,
        },
    }
}

/// The IR type that represents a source type.
pub open spec fn spec_from_ast(t: ast::TypeModel) -> TypeModel
    decreases t,
{
    match t {
        ast::TypeModel::Int => TypeModel::Int,
        ast::TypeModel::Bool => TypeModel::Bool,
        ast::TypeModel::Str => TypeModel::Ptr(Box::new(TypeModel::Char)),
        ast::TypeModel::Array(sub) => TypeModel::Ptr(Box::new(spec_from_ast(*sub))),
        ast::TypeModel::Class(name) => TypeModel::Ptr(Box::new(TypeModel::Struct(name))),
        ast::TypeModel::Null => TypeModel::Ptr(Box::new(TypeModel::Void)),
        ast::TypeModel::Void => TypeModel::Void,
    }
}

impl Type {
    /// The IR type that represents a source type.
    pub fn from_ast(ast_type: &ast::InnerType) -> (res: Type)
        ensures
            res@ == spec_from_ast(ast_type@),
        decreases ast_type,
    {
        match ast_type {
            ast::InnerType::Int => Type::Int,
            ast::InnerType::Bool => Type::Bool,
            ast::InnerType::String => {
                assert(Type::Char@ == TypeModel::Char);
                Type::Ptr(Box::new(Type::Char))
            },
            ast::InnerType::Array(subtype) => Type::Ptr(Box::new(Type::from_ast(&**subtype))),
            ast::InnerType::Class(name) => {
                let n = name.clone();
                assert(Type::Struct(n)@ == TypeModel::Struct(n@));
                Type::Ptr(Box::new(Type::Struct(n)))
            },
            ast::InnerType::Null => {
                assert(Type::Void@ == TypeModel::Void);
                Type::Ptr(Box::new(Type::Void))
            },
            ast::InnerType::Void => Type::Void,
        }
    }
}

/// An operand of an operation.
pub enum Value {
    LitInt(i32),
    LitBool(bool),
    LitNullPtr,
    Register(RegNum, Type),
    GlobalRegister(GlobalStrNum),
}

/// Mathematical model of an operand.
pub enum ValueModel {
    LitInt(i32),
    LitBool(bool),
    LitNullPtr,
    Register(u32, TypeModel),
    GlobalRegister(u32),
}

impl View for Value {
    type V = ValueModel;

    open spec fn view(&self) -> ValueModel {
        match self {
            Value::LitInt(v) => ValueModel::LitInt(*v),
            Value::LitBool(b) => ValueModel::LitBool(*b),
            Value::LitNullPtr => ValueModel::LitNullPtr,
            Value::Register(r, t) => ValueModel::Register(r.0, t@),
            Value::GlobalRegister(g) => ValueModel::GlobalRegister(g.0),
        }
    }
}

impl Clone for Value {
    fn clone(&self) -> (res: Self)
        ensures
            res@ == self@,
    {
        match self {
            Value::LitInt(v) => Value::LitInt(*v),
            Value::LitBool(b) => Value::LitBool(*b),
            Value::LitNullPtr => Value::LitNullPtr,
            Value::Register(r, t) => Value::Register(*r, t.clone()),
            Value::GlobalRegister(g) => Value::GlobalRegister(*g),
        }
    }
}

/// Compares two operands by their models.
pub fn value_eq(a: &Value, b: &Value) -> (res: bool)
    ensures
        res == (a@ == b@),
{
    match a {
        Value::LitInt(x) => match b { Value::LitInt(y) => *x == *y, _ => false },
        Value::LitBool(x) => match b { Value::LitBool(y) => *x == *y, _ => false },
        Value::LitNullPtr => match b { Value::LitNullPtr => true, _ => false },
        Value::Register(r, t) => match b {
            Value::Register(r2, t2) => r.0 == r2.0 && type_eq(t, t2),
            _ => false,
        },
        Value::GlobalRegister(g) => match b { Value::GlobalRegister(g2) => g.0 == g2.0, _ => false },
    }
}

/// The type of an operand.
pub open spec fn spec_value_type(v: ValueModel) -> TypeModel {
    match v {
        ValueModel::LitInt(_) => TypeModel::Int,
        ValueModel::LitBool(_) => TypeModel::Bool,
        ValueModel::LitNullPtr => TypeModel::Ptr(Box::new(TypeModel::Void)),
        ValueModel::Register(_, t) => t,
        ValueModel::GlobalRegister(_) => TypeModel::Ptr(Box::new(TypeModel::Char)),
    }
}

impl Value {
    /// The type of an operand.
    pub fn get_type(&self) -> (res: Type)
        ensures
            res@ == spec_value_type(self@),
    {
        match self {
            Value::LitInt(_) => Type::Int,
            Value::LitBool(_) => Type::Bool,
            Value::LitNullPtr => {
                assert(Type::Void@ == TypeModel::Void);
                Type::Ptr(Box::new(Type::Void))
            },
            Value::Register(_, t) => t.clone(),
            Value::GlobalRegister(_) => {
                assert(Type::Char@ == TypeModel::Char);
                Type::Ptr(Box::new(Type::Char))
            },
        }
    }
}

pub enum ArithOp {
    Add,
    Sub,
    Mul,
    Div,
    Mod,
}

pub enum CmpOp {
    LT,
    LE,
    GT,
    GE,
    EQ,
    NE,
}

/// One instruction, read left to right as in LLVM.
pub enum Operation {
    Return(Option<Value>),
    FunctionCall(Option<RegNum>, Type, String, Vec<Value>),
    Arithmetic(RegNum, ArithOp, Value, Value),
    Compare(RegNum, CmpOp, Value, Value),
    GetElementPtr(RegNum, Type, Value, Value),
    /// The `usize` is the length of the string in bytes, its terminating zero included.
    CastGlobalString(RegNum, usize, GlobalStrNum),
    Branch1(Label),
    Branch2(Value, Label, Label),
}

/// A phi function: the register it defines, its type, and the value coming from each predecessor.
pub type Phi = (RegNum, Type, Vec<(Value, Label)>);

pub struct Block {
    pub label: Label,
    pub phi_set: Vec<Phi>,
    pub predecessors: Vec<Label>,
    pub body: Vec<Operation>,
}

pub struct Function {
    pub ret_type: Type,
    pub name: String,
    pub args: Vec<(RegNum, Type)>,
    pub blocks: Vec<Block>,
}

/// The layout of a class: its fields (the virtual table pointer first) and its virtual table.
pub struct Struct {
    pub name: String,
    pub fields: Vec<Type>,
    /// Each method's return type, parameter types (the object first) and full name.
    pub vtable: Vec<(Type, Vec<Type>, String)>,
}

pub struct Program {
    pub structs: Vec<Struct>,
    pub functions: Vec<Function>,
    pub global_strings: NameMap<GlobalStrNum>,
}


/// The suffix that turns a class's name into the name of its virtual table's struct.
pub open spec fn vtable_suffix() -> Seq<char> {
    seq!['.', 'v', 't', 'a', 'b', 'l', 'e']
}

/// The type of the pointer to a class's virtual table, its first field.
pub open spec fn vtable_type_model(class_name: Seq<char>) -> TypeModel {
    TypeModel::Ptr(Box::new(TypeModel::Struct(class_name + vtable_suffix())))
}

/// The type of the pointer to a class's virtual table, its first field.
pub fn get_class_vtable_type(class_name: &str) -> (res: Type)
    ensures
        res@ == vtable_type_model(class_name@),
{
    let mut name = String::new();
    append_str(&mut name, class_name);
    append_str(&mut name, ".vtable");
    proof {
        reveal_strlit(".vtable");
        assert(".vtable"@ =~= vtable_suffix());
    }
    let st = Type::Struct(name);
    assert(st@ == TypeModel::Struct(class_name@ + vtable_suffix()));
    Type::Ptr(Box::new(st))
}

/// The name under which a method of a class is emitted.
pub open spec fn method_name_model(class_name: Seq<char>, method_name: Seq<char>) -> Seq<char> {
    class_name + seq!['.'] + method_name
}

/// The name under which a method of a class is emitted.
pub fn format_method_name(class_name: &str, method_name: &str) -> (res: String)
    ensures
        res@ == method_name_model(class_name@, method_name@),
{
    let mut name = String::new();
    append_str(&mut name, class_name);
    append_str(&mut name, ".");
    append_str(&mut name, method_name);
    proof {
        reveal_strlit(".");
        assert("."@ =~= seq!['.']);
    }
    name
}

/// The IR types of a method's parameters: the object first, then the declared ones.
pub open spec fn method_args_model(class_name: Seq<char>, fun: ast::FunDef) -> Seq<TypeModel> {
    seq![TypeModel::Ptr(Box::new(TypeModel::Struct(class_name)))]
        + fun.args@.map_values(|a: (ast::Type, ast::Ident)| spec_from_ast(a.0.inner@))
}

pub open spec fn types_view(ts: Seq<Type>) -> Seq<TypeModel> {
    ts.map_values(|t: Type| t@)
}

impl Type {
    /// The return type and the parameter types of a method, the object first.
    pub fn from_method_def(class_name: &str, fun: &ast::FunDef) -> (res: (Type, Vec<Type>))
        ensures
            res.0@ == spec_from_ast(fun.ret_type.inner@),
            types_view(res.1@) == method_args_model(class_name@, *fun),
    {
        let ret = Type::from_ast(&fun.ret_type.inner);
        let mut args: Vec<Type> = Vec::new();
        let this_type = Type::Struct(class_name.to_owned());
        assert(this_type@ == TypeModel::Struct(class_name@));
        args.push(Type::Ptr(Box::new(this_type)));
        let mut i: usize = 0;
        while i < fun.args.len()
            invariant
                i <= fun.args@.len(),
                args@.len() == i + 1,
                args@[0]@ == TypeModel::Ptr(Box::new(TypeModel::Struct(class_name@))),
                forall|j: int| 0 <= j < i ==> #[trigger] args@[j + 1]@ == spec_from_ast(fun.args@[j].0.inner@),
            decreases fun.args@.len() - i,
        {
            let t = Type::from_ast(&fun.args[i].0.inner);
            args.push(t);
            i = i + 1;
        }
        assert(types_view(args@) =~= method_args_model(class_name@, *fun)) by {
            assert forall|j: int| 0 <= j < args@.len() implies #[trigger] types_view(args@)[j] == method_args_model(class_name@, *fun)[j] by {
                if j > 0 {
                    assert(args@[(j - 1) + 1]@ == spec_from_ast(fun.args@[j - 1].0.inner@));
                }
            }
        }
        (ret, args)
    }
}

} // verus!
