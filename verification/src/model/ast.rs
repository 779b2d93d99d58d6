use vstd::prelude::*;
use crate::text::append_str;

verus! {

/// A half-open range of byte offsets into the source text.
pub type Span = (usize, usize);

pub const EMPTY_SPAN: Span = (0, 0);

/// A syntax node together with the part of the source that it was read from.
pub struct ItemWithSpan<T> {
    pub inner: T,
    pub span: Span,
}

pub type Ident = ItemWithSpan<String>;

/// Builds a node that spans the offsets `l` to `r`.
pub fn new_spanned<T>(l: usize, inner: T, r: usize) -> (res: ItemWithSpan<T>)
    ensures
        res.inner == inner,
        res.span == (l, r),
{
    ItemWithSpan { inner, span: (l, r) }
}

/// Builds a boxed node that spans the offsets `l` to `r`.
pub fn new_spanned_boxed<T>(l: usize, inner: T, r: usize) -> (res: Box<ItemWithSpan<T>>)
    ensures
        res.inner == inner,
        res.span == (l, r),
{
    Box::new(new_spanned(l, inner, r))
}

/// The name under which a method sees the object it was called on.
pub const THIS_VAR: &'static str = "this";

pub struct Program {
    pub defs: Vec<TopDef>,
}

pub enum TopDef {
    FunDef(FunDef),
    ClassDef(ClassDef),
    Error,
}

pub struct ClassDef {
    pub name: Ident,
    pub parent_type: Option<Type>,
    pub items: Vec<ClassItemDef>,
    pub span: Span,
}

pub type ClassItemDef = ItemWithSpan<InnerClassItemDef>;

pub enum InnerClassItemDef {
    Field(Type, Ident),
    Method(FunDef),
    Error,
}

pub struct FunDef {
    pub ret_type: Type,
    pub name: Ident,
    pub args: Vec<(Type, Ident)>,
    pub body: Block,
    pub span: Span,
}

pub struct Block {
    pub stmts: Vec<Box<Stmt>>,
    pub span: Span,
}

pub type Stmt = ItemWithSpan<InnerStmt>;

pub enum InnerStmt {
    Empty,
    Block(Block),
    Decl { var_type: Type, var_items: Vec<(Ident, Option<Box<Expr>>)> },
    Assign(Box<Expr>, Box<Expr>),
    Incr(Box<Expr>),
    Decr(Box<Expr>),
    Ret(Option<Box<Expr>>),
    Cond { cond: Box<Expr>, true_branch: Block, false_branch: Option<Block> },
    While(Box<Expr>, Block),
    ForEach { iter_type: Type, iter_name: Ident, array: Box<Expr>, body: Block },
    Expr(Box<Expr>),
    Error,
}

pub type Type = ItemWithSpan<InnerType>;

pub type Expr = ItemWithSpan<InnerExpr>;

pub enum InnerExpr {
    LitVar(String),
    LitInt(i32),
    LitBool(bool),
    LitStr(String),
    LitNull,
    /// An implicit conversion that the type checker inserts.
    CastType(Box<Expr>, InnerType),
    FunCall { function_name: Ident, args: Vec<Box<Expr>> },
    BinaryOp(Box<Expr>, BinaryOp, Box<Expr>),
    UnaryOp(UnaryOp, Box<Expr>),
    NewArray { elem_type: Type, elem_cnt: Box<Expr> },
    ArrayElem { array: Box<Expr>, index: Box<Expr> },
    NewObject(Type),
    /// `is_obj_an_array` is filled in by the type checker.
    ObjField { obj: Box<Expr>, is_obj_an_array: Option<bool>, field: Ident },
    ObjMethodCall { obj: Box<Expr>, method_name: Ident, args: Vec<Box<Expr>> },
}

pub type UnaryOp = ItemWithSpan<InnerUnaryOp>;

#[derive(Clone, Copy, PartialEq, Eq, Structural)]
pub enum InnerUnaryOp {
    IntNeg,
    BoolNeg,
}

#[derive(Clone, Copy, PartialEq, Eq, Structural)]
pub enum BinaryOp {
    And,
    Or,
    Add,
    Sub,
    Mul,
    Div,
    Mod,
    LT,
    LE,
    GT,
    GE,
    EQ,
    NE,
}


/// The types of the source language.
pub enum InnerType {
    Int,
    Bool,
    String,
    Array(Box<InnerType>),
    Class(String),
    Null,
    Void,
}

/// Mathematical model of a source type, with class names as character sequences.
pub enum TypeModel {
    Int,
    Bool,
    Str,
    Array(Box<TypeModel>),
    Class(Seq<char>),
    Null,
    Void,
}

impl View for InnerType {
    type V = TypeModel;

    open spec fn view(&self) -> TypeModel
        decreases self,
    {
        match self {
            InnerType::Int => TypeModel::Int,
            InnerType::Bool => TypeModel::Bool,
            InnerType::String => TypeModel::Str,
            InnerType::Array(sub) => TypeModel::Array(Box::new((**sub)@)),
            InnerType::Class(name) => TypeModel::Class(name@),
            InnerType::Null => TypeModel::Null,
            InnerType::Void => TypeModel::Void,
        }
    }
}

impl Clone for InnerType {
    fn clone(&self) -> (res: Self)
        ensures
            res == *self,
        decreases self,
    {
        match self {
            InnerType::Int => InnerType::Int,
            InnerType::Bool => InnerType::Bool,
            InnerType::String => InnerType::String,
            InnerType::Array(sub) => InnerType::Array(Box::new((**sub).clone())),
            InnerType::Class(name) => InnerType::Class(name.clone()),
            InnerType::Null => InnerType::Null,
            InnerType::Void => InnerType::Void,
        }
    }
}

/// Compares two types by their models.
pub fn inner_type_eq(a: &InnerType, b: &InnerType) -> (res: bool)
    ensures
        res == (a@ == b@),
    decreases a,
{
    match a {
        InnerType::Int => match b { InnerType::Int => true, _ => false },
        InnerType::Bool => match b { InnerType::Bool => true, _ => false },
        InnerType::String => match b { InnerType::String => true, _ => false },
        InnerType::Array(x) => match b {
            InnerType::Array(y) => inner_type_eq(&**x, &**y),
            _ => false,
        },
        InnerType::Class(x) => match b {
            InnerType::Class(y) => *x == *y,
            _ => false,
        },
        InnerType::Null => match b { InnerType::Null => true, _ => false },
        InnerType::Void => match b { InnerType::Void => true, _ => false },
    }
}

/// How a type is written in the source language.
pub open spec fn type_text(t: TypeModel) -> Seq<char>
    decreases t,
{
    match t {
        TypeModel::Int => "int"@,
        TypeModel::Bool => "boolean"@,
        TypeModel::Str => "string"@,
        TypeModel::Array(sub) => type_text(*sub) + "[]"@,
        TypeModel::Class(name) => name,
        TypeModel::Null => "null"@,
        TypeModel::Void => "void"@,
    }
}

impl InnerType {
    /// Appends how the type is written in the source language.
    pub fn append_text(&self, out: &mut String)
        ensures
            final(out)@ == old(out)@ + type_text(self@),
        decreases self,
    {
        match self {
            InnerType::Int => append_str(out, "int"),
            InnerType::Bool => append_str(out, "boolean"),
            InnerType::String => append_str(out, "string"),
            InnerType::Array(sub) => {
                (**sub).append_text(out);
                append_str(out, "[]");
                assert(final(out)@ =~= old(out)@ + type_text(self@));
            },
            InnerType::Class(name) => append_str(out, name.as_str()),
            InnerType::Null => append_str(out, "null"),
            InnerType::Void => append_str(out, "void"),
        }
    }

    /// How the type is written in the source language.
    pub fn to_display_string(&self) -> (res: String)
        ensures
            res@ == type_text(self@),
    {
        let mut out = String::new();
        self.append_text(&mut out);
        assert(out@ =~= type_text(self@));
        out
    }
}

impl Clone for ItemWithSpan<InnerType> {
    fn clone(&self) -> (res: Self)
        ensures
            res == *self,
    {
        ItemWithSpan { inner: self.inner.clone(), span: self.span }
    }
}

impl Clone for ItemWithSpan<String> {
    fn clone(&self) -> (res: Self)
        ensures
            res == *self,
    {
        ItemWithSpan { inner: self.inner.clone(), span: self.span }
    }
}

} // verus!
