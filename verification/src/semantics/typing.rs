use vstd::prelude::*;
use crate::model::ast::{BinaryOp, Block, Expr, FunDef, Ident, Type, InnerExpr, InnerStmt, InnerUnaryOp, Stmt, TypeModel};
use crate::semantics::global_context::{ClassModel, FunModel, ItemModel, compatible, item_of, local_var_type_error};

verus! {

/// What a function body is checked against: all classes and functions, and the class
/// whose method it is, if it is one.
pub struct FcModel {
    pub classes: Map<Seq<char>, ClassModel>,
    pub functions: Map<Seq<char>, FunModel>,
    pub class_ctx: Option<ClassModel>,
}

/// Local variables in scope: one map per block, innermost last.
pub type Scopes = Seq<Map<Seq<char>, TypeModel>>;

/// What a name means as a variable: its type and whether it is a field of the current
/// object, or the message that says why it is no variable.
pub open spec fn var_lookup(fc: FcModel, scopes: Scopes, name: Seq<char>) -> Result<(TypeModel, bool), Seq<char>>
    decreases scopes.len(),
{
    if scopes.len() > 0 {
        if scopes.last().contains_key(name) {
            Ok((scopes.last()[name], false))
        } else {
            var_lookup(fc, scopes.drop_last(), name)
        }
    } else {
        let global = if fc.functions.contains_key(name) {
            Err("Error: expected variable, found a function"@)
        } else {
            Err("Error: variable not defined"@)
        };
        match fc.class_ctx {
            Some(c) => if name == "this"@ {
                Ok((TypeModel::Class(c.name), false))
            } else {
                match item_of(fc.classes, c, name) {
                    Some(ItemModel::Var(t)) => Ok((t, true)),
                    Some(ItemModel::Fun(_)) => Err("Error: expected variable, found a class method"@),
                    None => global,
                }
            },
            None => global,
        }
    }
}

/// What a name means as a function: its signature and whether it is a method of the
/// current object, or the message that says why it is no function.
pub open spec fn fun_lookup(fc: FcModel, scopes: Scopes, name: Seq<char>) -> Result<(FunModel, bool), Seq<char>>
    decreases scopes.len(),
{
    if scopes.len() > 0 {
        if scopes.last().contains_key(name) {
            Err("Error: expected function, got a variable"@)
        } else {
            fun_lookup(fc, scopes.drop_last(), name)
        }
    } else {
        let global = if fc.functions.contains_key(name) {
            Ok((fc.functions[name], false))
        } else {
            Err("Error: function not defined"@)
        };
        match fc.class_ctx {
            Some(c) => match item_of(fc.classes, c, name) {
                Some(ItemModel::Fun(f)) => Ok((f, true)),
                Some(ItemModel::Var(_)) => Err("Error: expected function, found a class field"@),
                None => global,
            },
            None => global,
        }
    }
}

/// The type of a binary operation on operands of the given types, if it is allowed.
pub open spec fn binop_type(lt: TypeModel, op: BinaryOp, rt: TypeModel) -> Option<TypeModel> {
    match op {
        BinaryOp::And | BinaryOp::Or => if lt is Bool && rt is Bool { Some(TypeModel::Bool) } else { None },
        BinaryOp::Add => if lt is Str && rt is Str {
            Some(TypeModel::Str)
        } else if lt is Int && rt is Int {
            Some(TypeModel::Int)
        } else {
            None
        },
        BinaryOp::Sub | BinaryOp::Mul | BinaryOp::Div | BinaryOp::Mod => if lt is Int && rt is Int {
            Some(TypeModel::Int)
        } else {
            None
        },
        BinaryOp::LT | BinaryOp::LE | BinaryOp::GT | BinaryOp::GE => if lt is Int && rt is Int {
            Some(TypeModel::Bool)
        } else {
            None
        },
        BinaryOp::EQ | BinaryOp::NE => if (lt is Int && rt is Int) || (lt is Bool && rt is Bool) || (lt is Str && rt is Str)
            || ((lt is Class || lt is Array) && rt is Null) || (lt is Null && (rt is Class || rt is Array)) {
            Some(TypeModel::Bool)
        } else {
            None
        },
    }
}

/// The type of a unary operation on an operand of type `t`, if it is allowed.
pub open spec fn unop_type(op: InnerUnaryOp, t: TypeModel) -> Option<TypeModel> {
    match op {
        InnerUnaryOp::IntNeg => if t is Int { Some(TypeModel::Int) } else { None },
        InnerUnaryOp::BoolNeg => if t is Bool { Some(TypeModel::Bool) } else { None },
    }
}

/// The type of an expression, when it has one and no part of it is in error.
pub open spec fn expr_type(fc: FcModel, scopes: Scopes, e: InnerExpr) -> Option<TypeModel>
    decreases e,
{
    match e {
        InnerExpr::LitVar(v) => match var_lookup(fc, scopes, v@) {
            Ok((t, _)) => Some(t),
            Err(_) => None,
        },
        InnerExpr::LitInt(_) => Some(TypeModel::Int),
        InnerExpr::LitBool(_) => Some(TypeModel::Bool),
        InnerExpr::LitStr(_) => Some(TypeModel::Str),
        InnerExpr::LitNull => Some(TypeModel::Null),
        InnerExpr::CastType(_, _) => None,
        InnerExpr::FunCall { function_name, args } => match fun_lookup(fc, scopes, function_name.inner@) {
            Ok((f, _)) => if args@.len() == f.args.len() && args_fit(fc, scopes, args@, f.args) {
                Some(f.ret)
            } else {
                None
            },
            Err(_) => None,
        },
        InnerExpr::BinaryOp(lhs, op, rhs) => match (expr_type(fc, scopes, lhs.inner), expr_type(fc, scopes, rhs.inner)) {
            (Some(lt), Some(rt)) => binop_type(lt, op, rt),
            _ => None,
        },
        InnerExpr::UnaryOp(op, sub) => match expr_type(fc, scopes, sub.inner) {
            Some(t) => unop_type(op.inner, t),
            None => None,
        },
        InnerExpr::NewArray { elem_type, elem_cnt } => if local_var_type_error(fc.classes, elem_type.inner@) is None
            && (match expr_type(fc, scopes, elem_cnt.inner) {
            Some(t) => compatible(fc.classes, TypeModel::Int, t),
            None => false,
        }) {
            Some(TypeModel::Array(Box::new(elem_type.inner@)))
        } else {
            None
        },
        InnerExpr::ArrayElem { array, index } => if (match expr_type(fc, scopes, index.inner) {
            Some(t) => compatible(fc.classes, TypeModel::Int, t),
            None => false,
        }) {
            match expr_type(fc, scopes, array.inner) {
                Some(TypeModel::Array(t)) => Some(*t),
                _ => None,
            }
        } else {
            None
        },
        InnerExpr::NewObject(t) => if local_var_type_error(fc.classes, t.inner@) is None && t.inner@ is Class {
            Some(t.inner@)
        } else {
            None
        },
        InnerExpr::ObjField { obj, field, .. } => match expr_type(fc, scopes, obj.inner) {
            Some(TypeModel::Class(cl)) => match item_of(fc.classes, fc.classes[cl], field.inner@) {
                Some(ItemModel::Var(t)) => Some(t),
                _ => None,
            },
            Some(TypeModel::Array(_)) => if field.inner@ == "length"@ { Some(TypeModel::Int) } else { None },
            _ => None,
        },
        InnerExpr::ObjMethodCall { obj, method_name, args } => match expr_type(fc, scopes, obj.inner) {
            Some(TypeModel::Class(cl)) => match item_of(fc.classes, fc.classes[cl], method_name.inner@) {
                Some(ItemModel::Fun(f)) => if args@.len() == f.args.len() && args_fit(fc, scopes, args@, f.args) {
                    Some(f.ret)
                } else {
                    None
                },
                _ => None,
            },
            _ => None,
        },
    }
}

/// Each argument has a type compatible with the parameter at its position.
pub open spec fn args_fit(fc: FcModel, scopes: Scopes, args: Seq<Box<Expr>>, params: Seq<TypeModel>) -> bool
    decreases args,
{
    if args.len() == 0 {
        true
    } else {
        args_fit(fc, scopes, args.drop_last(), params) && match expr_type(fc, scopes, args.last().inner) {
            Some(t) => compatible(fc.classes, params[args.len() - 1], t),
            None => false,
        }
    }
}


/// `e` is the name `this`, read from `span`.
pub open spec fn is_this_at(e: Expr, span: (usize, usize)) -> bool {
    &&& e.span == span
    &&& e.inner matches InnerExpr::LitVar(s) && s@ == "this"@
}

/// `new` is what checking the type of `old` leaves in its place, where `old` has a type:
/// a name of a field or method of the current object becomes an access through `this`, a
/// field access learns whether its object is an array, and each argument or operand that is
/// checked against a type is converted where its own type differs.
pub open spec fn rewritten(fc: FcModel, scopes: Scopes, old: Expr, new: Expr) -> bool
    decreases old, 0nat,
{
    &&& new.span == old.span
    &&& match old.inner {
        InnerExpr::LitVar(v) => match var_lookup(fc, scopes, v@) {
            Ok((_, true)) => new.inner matches InnerExpr::ObjField { obj, is_obj_an_array, field }
                && is_this_at(*obj, old.span) && is_obj_an_array == Some(false)
                && field.span == old.span && field.inner == v,
            _ => new.inner == old.inner,
        },
        InnerExpr::FunCall { function_name, args } => match fun_lookup(fc, scopes, function_name.inner@) {
            Ok((f, true)) => new.inner matches InnerExpr::ObjMethodCall { obj, method_name, args: args2 }
                && is_this_at(*obj, function_name.span) && method_name == function_name
                && args_rewritten(fc, scopes, args@, args2@, f.args),
            Ok((f, false)) => new.inner matches InnerExpr::FunCall { function_name: name2, args: args2 }
                && name2 == function_name && args_rewritten(fc, scopes, args@, args2@, f.args),
            Err(_) => true,
        },
        InnerExpr::BinaryOp(lhs, op, rhs) => new.inner matches InnerExpr::BinaryOp(lhs2, op2, rhs2)
            && op2 == op && rewritten(fc, scopes, *lhs, *lhs2) && rewritten(fc, scopes, *rhs, *rhs2),
        InnerExpr::UnaryOp(op, sub) => new.inner matches InnerExpr::UnaryOp(op2, sub2)
            && op2 == op && rewritten(fc, scopes, *sub, *sub2),
        InnerExpr::NewArray { elem_type, elem_cnt } => new.inner matches InnerExpr::NewArray { elem_type: t2, elem_cnt: cnt2 }
            && t2 == elem_type && converted(fc, scopes, *elem_cnt, *cnt2, TypeModel::Int),
        InnerExpr::ArrayElem { array, index } => new.inner matches InnerExpr::ArrayElem { array: array2, index: index2 }
            && rewritten(fc, scopes, *array, *array2) && converted(fc, scopes, *index, *index2, TypeModel::Int),
        InnerExpr::ObjField { obj, is_obj_an_array, field } => new.inner matches InnerExpr::ObjField { obj: obj2, is_obj_an_array: is_array2, field: field2 }
            && rewritten(fc, scopes, *obj, *obj2) && field2 == field
            && is_array2 == match expr_type(fc, scopes, obj.inner) {
                Some(TypeModel::Class(_)) => Some(false),
                Some(TypeModel::Array(_)) => Some(true),
                _ => is_obj_an_array,
            },
        InnerExpr::ObjMethodCall { obj, method_name, args } => new.inner matches InnerExpr::ObjMethodCall { obj: obj2, method_name: name2, args: args2 }
            && rewritten(fc, scopes, *obj, *obj2) && name2 == method_name
            && match expr_type(fc, scopes, obj.inner) {
                Some(TypeModel::Class(cl)) => match item_of(fc.classes, fc.classes[cl], method_name.inner@) {
                    Some(ItemModel::Fun(f)) => args_rewritten(fc, scopes, args@, args2@, f.args),
                    _ => true,
                },
                _ => true,
            },
        _ => new.inner == old.inner,
    }
}

/// `new` is what checking `old` against the type `expected` leaves in its place, where `old`
/// has a type: its rewriting, wrapped in a conversion to `expected` where its type differs.
pub open spec fn converted(fc: FcModel, scopes: Scopes, old: Expr, new: Expr, expected: TypeModel) -> bool
    decreases old, 1nat,
{
    match expr_type(fc, scopes, old.inner) {
        Some(t) => if t == expected {
            rewritten(fc, scopes, old, new)
        } else {
            new.span == old.span && (new.inner matches InnerExpr::CastType(sub, ty)
                && ty@ == expected && rewritten(fc, scopes, old, *sub))
        },
        None => true,
    }
}

/// Each argument in `news` is its counterpart in `olds` checked against the parameter type
/// at its position.
pub open spec fn args_rewritten(fc: FcModel, scopes: Scopes, olds: Seq<Box<Expr>>, news: Seq<Box<Expr>>, params: Seq<TypeModel>) -> bool
    decreases olds, 2nat,
{
    &&& news.len() == olds.len()
    &&& forall|i: int| 0 <= i < olds.len() ==> converted(fc, scopes, *olds[i], *#[trigger] news[i], params[i])
}

/// How an expression may stand on the left of an assignment.
pub enum LvKind {
    Var,
    Elem,
    /// A field access, with whether its object is known to be an array.
    Field(Option<bool>),
    Other,
}

pub open spec fn lv_kind(e: InnerExpr) -> LvKind {
    match e {
        InnerExpr::LitVar(_) => LvKind::Var,
        InnerExpr::ArrayElem { .. } => LvKind::Elem,
        InnerExpr::ObjField { is_obj_an_array, .. } => LvKind::Field(is_obj_an_array),
        _ => LvKind::Other,
    }
}

/// What checking the type of `e` leaves in it, as far as assignment goes: a variable that
/// names a field of the current object becomes an access through `this`, and a field access
/// learns whether its object is an array.
pub open spec fn lv_kind_after_check(fc: FcModel, scopes: Scopes, e: InnerExpr) -> LvKind {
    match e {
        InnerExpr::LitVar(v) => match var_lookup(fc, scopes, v@) {
            Ok((_, true)) => LvKind::Field(Some(false)),
            _ => LvKind::Var,
        },
        InnerExpr::ArrayElem { .. } => LvKind::Elem,
        InnerExpr::ObjField { obj, is_obj_an_array, .. } => match expr_type(fc, scopes, obj.inner) {
            Some(TypeModel::Class(_)) => LvKind::Field(Some(false)),
            Some(TypeModel::Array(_)) => LvKind::Field(Some(true)),
            _ => LvKind::Field(is_obj_an_array),
        },
        _ => LvKind::Other,
    }
}

/// Whether a checked expression may be assigned to: a variable, an array element, or a field
/// of an object (arrays have none that can change).
pub open spec fn lvalue_ok(k: LvKind) -> bool {
    match k {
        LvKind::Var | LvKind::Elem => true,
        LvKind::Field(Some(is_array)) => !is_array,
        _ => false,
    }
}


/// The expression has a type, and one compatible with `expected`.
pub open spec fn check_ok(fc: FcModel, scopes: Scopes, e: InnerExpr, expected: TypeModel) -> bool {
    match expr_type(fc, scopes, e) {
        Some(t) => compatible(fc.classes, expected, t),
        None => false,
    }
}

/// The state of checking a block: the variables in scope, whether every path so far has
/// returned, whether no error was found, and whether the checker is defined on what it met.
pub struct StState {
    pub scopes: Scopes,
    pub after_ret: bool,
    pub ok: bool,
    pub defined: bool,
}

/// What checking a block gives: whether it has no error, whether it always returns,
/// and whether the checker is defined on it.
pub struct BlockResult {
    pub ok: bool,
    pub after_ret: bool,
    pub defined: bool,
}

/// Declaring a variable in the innermost scope.
pub open spec fn add_var(st: StState, t: TypeModel, name: Seq<char>) -> StState {
    if name == "this"@ {
        StState { ok: false, ..st }
    } else {
        StState {
            scopes: st.scopes.update(st.scopes.len() - 1, st.scopes.last().insert(name, t)),
            ok: st.ok && !st.scopes.last().contains_key(name),
            ..st
        }
    }
}

/// Declaring the variables of one declaration, each checked against its initial value
/// after it is declared.
pub open spec fn decl_fold(
    fc: FcModel,
    st: StState,
    var_type: TypeModel,
    corr: bool,
    items: Seq<(Ident, Option<Box<Expr>>)>,
) -> StState
    decreases items.len(),
{
    if items.len() == 0 {
        st
    } else {
        let st1 = decl_fold(fc, st, var_type, corr, items.drop_last());
        let st2 = if corr { add_var(st1, var_type, items.last().0.inner@) } else { st1 };
        match items.last().1 {
            Some(e) => StState { ok: st2.ok && check_ok(fc, st2.scopes, e.inner, var_type), ..st2 },
            None => st2,
        }
    }
}

pub open spec fn block_result(fc: FcModel, scopes: Scopes, ret: TypeModel, b: Block) -> BlockResult
    decreases b,
{
    let st = stmts_fold(
        fc,
        ret,
        StState { scopes: scopes.push(Map::empty()), after_ret: false, ok: true, defined: true },
        b.stmts@,
    );
    BlockResult { ok: st.ok, after_ret: st.after_ret, defined: st.defined }
}

pub open spec fn stmts_fold(fc: FcModel, ret: TypeModel, st: StState, stmts: Seq<Box<Stmt>>) -> StState
    decreases stmts,
{
    if stmts.len() == 0 {
        st
    } else {
        stmt_step(fc, ret, stmts_fold(fc, ret, st, stmts.drop_last()), stmts.last().inner)
    }
}

/// Taking one more statement into account.
pub open spec fn stmt_step(fc: FcModel, ret: TypeModel, st: StState, s: InnerStmt) -> StState
    decreases s,
{
    match s {
        InnerStmt::Empty => st,
        InnerStmt::Block(bl) => {
            let r = block_result(fc, st.scopes, ret, bl);
            StState {
                ok: st.ok && r.ok,
                after_ret: st.after_ret || (r.ok && r.after_ret),
                defined: st.defined && r.defined,
                ..st
            }
        },
        InnerStmt::Decl { var_type, var_items } => {
            let corr = local_var_type_error(fc.classes, var_type.inner@) is None;
            let st1 = if corr { st } else { StState { ok: false, ..st } };
            decl_fold(fc, st1, var_type.inner@, corr, var_items@)
        },
        InnerStmt::Assign(lhs, rhs) => match expr_type(fc, st.scopes, lhs.inner) {
            Some(t) => StState {
                ok: st.ok && lvalue_ok(lv_kind_after_check(fc, st.scopes, lhs.inner)) && check_ok(fc, st.scopes, rhs.inner, t),
                ..st
            },
            None => StState { ok: false, ..st },
        },
        InnerStmt::Incr(e) | InnerStmt::Decr(e) => StState {
            ok: st.ok && check_ok(fc, st.scopes, e.inner, TypeModel::Int) && lvalue_ok(lv_kind_after_check(fc, st.scopes, e.inner)),
            defined: st.defined && lv_kind_after_check(fc, st.scopes, e.inner) != LvKind::Field(None),
            ..st
        },
        InnerStmt::Ret(opt) => StState {
            after_ret: true,
            ok: st.ok && match opt {
                Some(e) => check_ok(fc, st.scopes, e.inner, ret),
                None => ret is Void,
            },
            ..st
        },
        InnerStmt::Cond { cond, true_branch, false_branch } => {
            let r1 = block_result(fc, st.scopes, ret, true_branch);
            let br1 = r1.ok && r1.after_ret;
            let (ok2, br2, def2) = match false_branch {
                Some(bl) => {
                    let r2 = block_result(fc, st.scopes, ret, bl);
                    (r2.ok, r2.ok && r2.after_ret, r2.defined)
                },
                None => (true, false, true),
            };
            StState {
                ok: st.ok && check_ok(fc, st.scopes, cond.inner, TypeModel::Bool) && r1.ok && ok2,
                after_ret: st.after_ret || match cond.inner {
                    InnerExpr::LitBool(true) => br1,
                    InnerExpr::LitBool(false) => br2,
                    _ => br1 && br2,
                },
                defined: st.defined && r1.defined && def2,
                ..st
            }
        },
        InnerStmt::While(cond, body) => {
            let r = block_result(fc, st.scopes, ret, body);
            StState {
                ok: st.ok && check_ok(fc, st.scopes, cond.inner, TypeModel::Bool) && r.ok,
                after_ret: st.after_ret || cond.inner == InnerExpr::LitBool(true),
                defined: st.defined && r.defined,
                ..st
            }
        },
        InnerStmt::ForEach { iter_type, iter_name, array, body } => {
            let corr = local_var_type_error(fc.classes, iter_type.inner@) is None;
            let named = iter_name.inner@ != "this"@;
            let scope = if corr && named { Map::empty().insert(iter_name.inner@, iter_type.inner@) } else { Map::empty() };
            let r = block_result(fc, st.scopes.push(scope), ret, body);
            StState {
                ok: st.ok && corr && named && check_ok(fc, st.scopes, array.inner, TypeModel::Array(Box::new(iter_type.inner@)))
                    && r.ok,
                after_ret: st.after_ret,
                defined: st.defined && r.defined,
                ..st
            }
        },
        InnerStmt::Expr(e) => StState { ok: st.ok && expr_type(fc, st.scopes, e.inner) is Some, ..st },
        InnerStmt::Error => st,
    }
}


/// Every path through the block ends in a `return`: some statement of it does.
pub open spec fn block_returns(b: Block) -> bool
    decreases b,
{
    stmts_return(b.stmts@)
}

/// Some statement among `stmts` returns on every path through it.
pub open spec fn stmts_return(stmts: Seq<Box<Stmt>>) -> bool
    decreases stmts,
{
    if stmts.len() == 0 {
        false
    } else {
        stmts_return(stmts.drop_last()) || stmt_returns(stmts.last().inner)
    }
}

/// Every path through the statement ends in a `return`: a `return`; a block that returns; a
/// conditional with the literal `true` whose first branch returns, with the literal `false`
/// whose `else` branch returns, or with any other condition where both branches return, so
/// never one without `else`; a loop only where its condition is the literal `true`, since any
/// other may hold no time at all, and never a `for` loop.
pub open spec fn stmt_returns(s: InnerStmt) -> bool
    decreases s,
{
    match s {
        InnerStmt::Ret(_) => true,
        InnerStmt::Block(bl) => block_returns(bl),
        InnerStmt::Cond { cond, true_branch, false_branch } => {
            let else_returns = match false_branch {
                Some(bl) => block_returns(bl),
                None => false,
            };
            match cond.inner {
                InnerExpr::LitBool(true) => block_returns(true_branch),
                InnerExpr::LitBool(false) => else_returns,
                _ => block_returns(true_branch) && else_returns,
            }
        },
        InnerStmt::While(cond, _) => cond.inner == InnerExpr::LitBool(true),
        _ => false,
    }
}

/// `news` are the items of a declaration of type `var_type` after checking, where checking
/// found no error: each name is kept, and each initial value is checked against the type
/// once the name is declared.
pub open spec fn decl_rewritten(
    fc: FcModel,
    st: StState,
    var_type: TypeModel,
    olds: Seq<(Ident, Option<Box<Expr>>)>,
    news: Seq<(Ident, Option<Box<Expr>>)>,
) -> bool {
    &&& news.len() == olds.len()
    &&& forall|k: int| 0 <= k < olds.len() ==> (#[trigger] news[k]).0 == olds[k].0 && match olds[k].1 {
        Some(e) => news[k].1 matches Some(e2)
            && converted(fc, decl_fold(fc, st, var_type, true, olds.take(k + 1)).scopes, *e, *e2, var_type),
        None => news[k].1 is None,
    }
}

/// `new` is what checking the block `old` leaves in its place, where checking found no error:
/// each statement is rewritten in the scope that the statements before it leave.
pub open spec fn block_rewritten(fc: FcModel, scopes: Scopes, ret: TypeModel, old: Block, new: Block) -> bool
    decreases old, 0nat,
{
    &&& new.span == old.span
    &&& stmts_rewritten(
        fc,
        ret,
        StState { scopes: scopes.push(Map::empty()), after_ret: false, ok: true, defined: true },
        old.stmts@,
        new.stmts@,
    )
}

/// Each statement in `news` is its counterpart in `olds`, rewritten in the state that the
/// statements before it leave.
pub open spec fn stmts_rewritten(fc: FcModel, ret: TypeModel, st: StState, olds: Seq<Box<Stmt>>, news: Seq<Box<Stmt>>) -> bool
    decreases olds, 1nat,
{
    &&& news.len() == olds.len()
    &&& forall|i: int| 0 <= i < olds.len()
        ==> stmt_rewritten(fc, ret, stmts_fold(fc, ret, st, olds.take(i)), *olds[i], *#[trigger] news[i])
}

/// `new` is what checking the statement `old` in state `st` leaves in its place, where checking
/// found no error: its expressions are rewritten, or converted to the type they are checked
/// against, and its blocks are rewritten in the scopes they are checked in.
pub open spec fn stmt_rewritten(fc: FcModel, ret: TypeModel, st: StState, old: Stmt, new: Stmt) -> bool
    decreases old, 2nat,
{
    &&& new.span == old.span
    &&& match old.inner {
        InnerStmt::Block(bl) => new.inner matches InnerStmt::Block(bl2) && block_rewritten(fc, st.scopes, ret, bl, bl2),
        InnerStmt::Decl { var_type, var_items } => new.inner matches InnerStmt::Decl { var_type: t2, var_items: items2 }
            && t2 == var_type && decl_rewritten(fc, st, var_type.inner@, var_items@, items2@),
        InnerStmt::Assign(lhs, rhs) => new.inner matches InnerStmt::Assign(lhs2, rhs2)
            && rewritten(fc, st.scopes, *lhs, *lhs2)
            && converted(fc, st.scopes, *rhs, *rhs2, expr_type(fc, st.scopes, lhs.inner)->0),
        InnerStmt::Incr(e) => new.inner matches InnerStmt::Incr(e2) && converted(fc, st.scopes, *e, *e2, TypeModel::Int),
        InnerStmt::Decr(e) => new.inner matches InnerStmt::Decr(e2) && converted(fc, st.scopes, *e, *e2, TypeModel::Int),
        InnerStmt::Ret(Some(e)) => new.inner matches InnerStmt::Ret(Some(e2)) && converted(fc, st.scopes, *e, *e2, ret),
        InnerStmt::Cond { cond, true_branch, false_branch } => new.inner matches InnerStmt::Cond {
            cond: cond2,
            true_branch: true2,
            false_branch: false2,
        } && converted(fc, st.scopes, *cond, *cond2, TypeModel::Bool) && block_rewritten(fc, st.scopes, ret, true_branch, true2)
            && match false_branch {
            Some(bl) => false2 matches Some(bl2) && block_rewritten(fc, st.scopes, ret, bl, bl2),
            None => false2 is None,
        },
        InnerStmt::While(cond, body) => new.inner matches InnerStmt::While(cond2, body2)
            && converted(fc, st.scopes, *cond, *cond2, TypeModel::Bool) && block_rewritten(fc, st.scopes, ret, body, body2),
        InnerStmt::ForEach { iter_type, iter_name, array, body } => new.inner matches InnerStmt::ForEach {
            iter_type: type2,
            iter_name: name2,
            array: array2,
            body: body2,
        } && type2 == iter_type && name2 == iter_name
            && converted(fc, st.scopes, *array, *array2, TypeModel::Array(Box::new(iter_type.inner@)))
            && block_rewritten(fc, st.scopes.push(Map::empty().insert(iter_name.inner@, iter_type.inner@)), ret, body, body2),
        InnerStmt::Expr(e) => new.inner matches InnerStmt::Expr(e2) && rewritten(fc, st.scopes, *e, *e2),
        _ => new.inner == old.inner,
    }
}

/// Declaring the parameters of a function, each whose type is valid.
pub open spec fn params_fold(fc: FcModel, st: StState, args: Seq<(Type, Ident)>) -> StState
    decreases args.len(),
{
    if args.len() == 0 {
        st
    } else {
        let st1 = params_fold(fc, st, args.drop_last());
        if local_var_type_error(fc.classes, args.last().0.inner@) is None {
            add_var(st1, args.last().0.inner@, args.last().1.inner@)
        } else {
            StState { ok: false, ..st1 }
        }
    }
}

/// The state after declaring the parameters of `f`.
pub open spec fn params_state(fc: FcModel, f: FunDef) -> StState {
    params_fold(fc, StState { scopes: seq![Map::empty()], after_ret: false, ok: true, defined: true }, f.args@)
}

/// What checking the body of `f` gives.
pub open spec fn body_result(fc: FcModel, f: FunDef) -> BlockResult {
    block_result(fc, params_state(fc, f).scopes, f.ret_type.inner@, f.body)
}

/// `new` is what checking `old` leaves in its place, where checking found no error: the
/// signature is kept, and the body is rewritten in the scope of the parameters.
pub open spec fn fun_rewritten(fc: FcModel, old: FunDef, new: FunDef) -> bool {
    &&& new.ret_type == old.ret_type
    &&& new.name == old.name
    &&& new.args == old.args
    &&& new.span == old.span
    &&& block_rewritten(fc, params_state(fc, old).scopes, old.ret_type.inner@, old.body, new.body)
}

/// The function has valid parameters, a body without error, and a `void` return type
/// unless every path through the body returns.
pub open spec fn function_ok(fc: FcModel, f: FunDef) -> bool {
    params_state(fc, f).ok && body_result(fc, f).ok && (body_result(fc, f).after_ret || f.ret_type.inner@ is Void)
}

} // verus!
