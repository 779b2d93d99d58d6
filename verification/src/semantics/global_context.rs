use vstd::prelude::*;
use crate::frontend_error::{ErrorAccumulation, FrontendError, FrontendResult, errors_of, ok_if_no_error};
use crate::model::ast::{
    ClassDef, FunDef, InnerClassItemDef, InnerType, Program, Span, TopDef, Type, TypeModel,
    EMPTY_SPAN, inner_type_eq, type_text,
};
use crate::name_map::NameMap;
use crate::text::append_str;

verus! {

/// The signature of a function or method.
pub struct FunModel {
    pub ret: TypeModel,
    pub name: Seq<char>,
    pub args: Seq<TypeModel>,
}

/// A member of a class: a field with its type, or a method.
pub enum ItemModel {
    Var(TypeModel),
    Fun(FunModel),
}

/// A class: its name, its declared superclass, and its own members.
pub struct ClassModel {
    pub name: Seq<char>,
    pub parent: Option<TypeModel>,
    pub items: Map<Seq<char>, ItemModel>,
}

/// The signature of a function or method.
pub struct FunDesc {
    pub ret_type: Type,
    pub name: String,
    pub args_types: Vec<Type>,
}

/// A member of a class.
pub enum TypeWrapper {
    Var(Type),
    Fun(FunDesc),
}

/// A class as the checker knows it.
pub struct ClassDesc {
    name: String,
    parent_type: Option<Type>,
    items: NameMap<TypeWrapper>,
}

/// Everything declared at the top level: classes and functions, builtins included.
pub struct GlobalContext {
    classes: NameMap<ClassDesc>,
    functions: NameMap<FunDesc>,
}

pub open spec fn types_model(ts: Seq<Type>) -> Seq<TypeModel> {
    ts.map_values(|t: Type| t.inner@)
}

impl View for FunDesc {
    type V = FunModel;

    open spec fn view(&self) -> FunModel {
        FunModel { ret: self.ret_type.inner@, name: self.name@, args: types_model(self.args_types@) }
    }
}

impl View for TypeWrapper {
    type V = ItemModel;

    open spec fn view(&self) -> ItemModel {
        match self {
            TypeWrapper::Var(t) => ItemModel::Var(t.inner@),
            TypeWrapper::Fun(f) => ItemModel::Fun(f@),
        }
    }
}

pub open spec fn opt_type_model(t: Option<Type>) -> Option<TypeModel> {
    match t {
        Some(t) => Some(t.inner@),
        None => None,
    }
}

impl View for ClassDesc {
    type V = ClassModel;

    closed spec fn view(&self) -> ClassModel {
        ClassModel {
            name: self.name@,
            parent: opt_type_model(self.parent_type),
            items: self.items@.map_values(|w: TypeWrapper| w@),
        }
    }
}

impl ClassDesc {
    pub closed spec fn wf(&self) -> bool {
        self.items.wf()
    }

    /// The class's name, as a new string.
    pub fn name_string(&self) -> (res: String)
        ensures
            res@ == self@.name,
    {
        self.name.clone()
    }

    /// The class's name.
    pub fn get_name(&self) -> (res: &str)
        ensures
            res@ == self@.name,
    {
        self.name.as_str()
    }
}

pub open spec fn classes_model(m: Map<Seq<char>, ClassDesc>) -> Map<Seq<char>, ClassModel> {
    m.map_values(|c: ClassDesc| c@)
}

pub open spec fn functions_model(m: Map<Seq<char>, FunDesc>) -> Map<Seq<char>, FunModel> {
    m.map_values(|f: FunDesc| f@)
}

impl GlobalContext {
    /// The classes, by name.
    pub closed spec fn classes(&self) -> Map<Seq<char>, ClassModel> {
        classes_model(self.classes@)
    }

    /// The functions, by name, builtins included.
    pub closed spec fn functions(&self) -> Map<Seq<char>, FunModel> {
        functions_model(self.functions@)
    }

    pub closed spec fn wf(&self) -> bool {
        &&& self.classes.wf()
        &&& self.functions.wf()
        &&& forall|k: Seq<char>| #[trigger] self.classes@.contains_key(k) ==> self.classes@[k].wf()
    }

    /// The class called `cl_name`.
    pub fn get_class_description(&self, cl_name: &str) -> (res: Option<&ClassDesc>)
        requires
            self.wf(),
        ensures
            match res {
                Some(c) => self.classes().contains_key(cl_name@) && c@ == self.classes()[cl_name@] && c.wf(),
                None => !self.classes().contains_key(cl_name@),
            },
    {
        self.classes.get(cl_name)
    }

    /// The function called `fun_name`.
    pub fn get_function_description(&self, fun_name: &str) -> (res: Option<&FunDesc>)
        requires
            self.wf(),
        ensures
            match res {
                Some(f) => self.functions().contains_key(fun_name@) && f@ == self.functions()[fun_name@],
                None => !self.functions().contains_key(fun_name@),
            },
    {
        self.functions.get(fun_name)
    }
}


/// The signature that a function definition declares.
pub open spec fn fun_model(f: FunDef) -> FunModel {
    FunModel {
        ret: f.ret_type.inner@,
        name: f.name.inner@,
        args: f.args@.map_values(|a: (Type, crate::model::ast::Ident)| a.0.inner@),
    }
}

fn clone_types_of_args(args: &Vec<(Type, crate::model::ast::Ident)>) -> (res: Vec<Type>)
    ensures
        types_model(res@) == args@.map_values(|a: (Type, crate::model::ast::Ident)| a.0.inner@),
{
    let mut res: Vec<Type> = Vec::new();
    let mut i: usize = 0;
    while i < args.len()
        invariant
            i <= args@.len(),
            res@.len() == i,
            forall|j: int| 0 <= j < i ==> #[trigger] res@[j] == args@[j].0,
        decreases args@.len() - i,
    {
        res.push(args[i].0.clone());
        i = i + 1;
    }
    assert(types_model(res@) =~= args@.map_values(|a: (Type, crate::model::ast::Ident)| a.0.inner@));
    res
}

impl FunDesc {
    /// The signature that a function definition declares.
    pub fn from(fundef: &FunDef) -> (res: FunDesc)
        ensures
            res@ == fun_model(*fundef),
    {
        FunDesc {
            ret_type: fundef.ret_type.clone(),
            name: fundef.name.inner.clone(),
            args_types: clone_types_of_args(&fundef.args),
        }
    }

    /// Same return type, name, and parameter types.
    pub fn does_signature_match(&self, rhs: &FunDesc) -> (res: bool)
        ensures
            res == (self@ == rhs@),
    {
        if !inner_type_eq(&self.ret_type.inner, &rhs.ret_type.inner) || !(self.name == rhs.name)
            || self.args_types.len() != rhs.args_types.len() {
            proof {
                if self.args_types.len() != rhs.args_types.len() {
                    assert(self@.args.len() != rhs@.args.len());
                }
            }
            return false;
        }
        let mut i: usize = 0;
        while i < self.args_types.len()
            invariant
                i <= self.args_types@.len(),
                self.args_types@.len() == rhs.args_types@.len(),
                forall|j: int| 0 <= j < i ==> (#[trigger] self.args_types@[j]).inner@ == rhs.args_types@[j].inner@,
            decreases self.args_types@.len() - i,
        {
            if !inner_type_eq(&self.args_types[i].inner, &rhs.args_types[i].inner) {
                assert(self@.args[i as int] != rhs@.args[i as int]);
                return false;
            }
            i = i + 1;
        }
        assert(self@.args =~= rhs@.args);
        true
    }
}

/// The functions that every program can call.
pub open spec fn builtin_functions() -> Map<Seq<char>, FunModel> {
    map![
        "printInt"@ => FunModel { ret: TypeModel::Void, name: "printInt"@, args: seq![TypeModel::Int] },
        "printString"@ => FunModel { ret: TypeModel::Void, name: "printString"@, args: seq![TypeModel::Str] },
        "error"@ => FunModel { ret: TypeModel::Void, name: "error"@, args: seq![] },
        "readInt"@ => FunModel { ret: TypeModel::Int, name: "readInt"@, args: seq![] },
        "readString"@ => FunModel { ret: TypeModel::Str, name: "readString"@, args: seq![] },
    ]
}

/// The return type and every parameter type of `d` are written nowhere in the source.
pub open spec fn spans_empty(d: FunDesc) -> bool {
    &&& d.ret_type.span == EMPTY_SPAN
    &&& forall|i: int| 0 <= i < d.args_types@.len() ==> (#[trigger] d.args_types@[i]).span == EMPTY_SPAN
}

fn builtin(name: &str, ret: InnerType, args: Vec<Type>) -> (res: (String, FunDesc))
    requires
        forall|i: int| 0 <= i < args@.len() ==> (#[trigger] args@[i]).span == EMPTY_SPAN,
    ensures
        spans_empty(res.1),
        res.0@ == name@,
        res.1@ == (FunModel { ret: ret@, name: name@, args: types_model(args@) }),
{
    (name.to_owned(), FunDesc {
        ret_type: Type { inner: ret, span: EMPTY_SPAN },
        name: name.to_owned(),
        args_types: args,
    })
}

fn plain_type(t: InnerType) -> (res: Type)
    ensures
        res.inner == t,
        res.span == EMPTY_SPAN,
{
    Type { inner: t, span: EMPTY_SPAN }
}

/// The functions that every program can call.
pub fn get_builtin_functions() -> (res: NameMap<FunDesc>)
    ensures
        res.wf(),
        functions_model(res@) == builtin_functions(),
        forall|k: Seq<char>| #[trigger] res@.contains_key(k) ==> spans_empty(res@[k]),
{
    proof {
        reveal_strlit("printInt");
        reveal_strlit("printString");
        reveal_strlit("error");
        reveal_strlit("readInt");
        reveal_strlit("readString");
    }
    let mut m = NameMap::new();
    let a1 = vec![plain_type(InnerType::Int)];
    assert(types_model(a1@) =~= seq![TypeModel::Int]);
    let (k, f) = builtin("printInt", InnerType::Void, a1);
    m.insert(k, f);
    let a2 = vec![plain_type(InnerType::String)];
    assert(types_model(a2@) =~= seq![TypeModel::Str]);
    let (k, f) = builtin("printString", InnerType::Void, a2);
    m.insert(k, f);
    let a3: Vec<Type> = vec![];
    assert(types_model(a3@) =~= Seq::<TypeModel>::empty());
    let (k, f) = builtin("error", InnerType::Void, a3);
    m.insert(k, f);
    let a4: Vec<Type> = vec![];
    assert(types_model(a4@) =~= Seq::<TypeModel>::empty());
    let (k, f) = builtin("readInt", InnerType::Int, a4);
    m.insert(k, f);
    let a5: Vec<Type> = vec![];
    assert(types_model(a5@) =~= Seq::<TypeModel>::empty());
    let (k, f) = builtin("readString", InnerType::String, a5);
    m.insert(k, f);
    assert(functions_model(m@) =~= builtin_functions());
    m
}


/// The type mentions `null` somewhere.
pub open spec fn has_null(t: TypeModel) -> bool
    decreases t,
{
    match t {
        TypeModel::Null => true,
        TypeModel::Array(sub) => has_null(*sub),
        _ => false,
    }
}

/// Why `t` is no type for a variable, if it is not one: it is or holds `void`, or it names
/// a class that is not defined.
pub open spec fn local_var_type_error(classes: Map<Seq<char>, ClassModel>, t: TypeModel) -> Option<Seq<char>>
    decreases t,
{
    match t {
        TypeModel::Array(sub) => local_var_type_error(classes, *sub),
        TypeModel::Class(name) => if classes.contains_key(name) {
            None
        } else {
            Some("Error: invalid type - class not defined"@)
        },
        TypeModel::Void => Some("Error: invalid type - cannot use void here"@),
        _ => None,
    }
}

/// Why `t` is no return type, if it is not one; `void` is one.
pub open spec fn ret_type_error(classes: Map<Seq<char>, ClassModel>, t: TypeModel) -> Option<Seq<char>> {
    if t is Void { None } else { local_var_type_error(classes, t) }
}

/// `res` is `Ok` when `err` is `None`, else the one error `err` about `span`.
pub open spec fn single_error(res: FrontendResult<()>, err: Option<Seq<char>>, span: Span) -> bool {
    match err {
        None => res is Ok,
        Some(m) => res matches Err(e) && e@.len() == 1 && e@[0].err@ == m && e@[0].span == span,
    }
}

pub fn one_error(msg: &str, span: Span) -> (res: FrontendResult<()>)
    ensures
        single_error(res, Some(msg@), span),
{
    Err(vec![FrontendError { err: msg.to_owned(), span }])
}

/// The superclass that a class declares, when it declares a class.
pub open spec fn parent_name(c: ClassModel) -> Option<Seq<char>> {
    match c.parent {
        Some(TypeModel::Class(p)) => Some(p),
        _ => None,
    }
}

/// Following superclasses from `name` reaches, within `fuel` steps, a class without one,
/// passing only through defined classes whose superclasses are classes.
pub open spec fn chain_ok(classes: Map<Seq<char>, ClassModel>, name: Seq<char>, fuel: nat) -> bool
    decreases fuel,
{
    classes.contains_key(name) && match classes[name].parent {
        None => true,
        Some(TypeModel::Class(p)) => fuel > 0 && chain_ok(classes, p, (fuel - 1) as nat),
        Some(_) => false,
    }
}

/// The same holds from the class `c`, which need not be among `classes` itself.
pub open spec fn desc_chain_ok(classes: Map<Seq<char>, ClassModel>, c: ClassModel, fuel: nat) -> bool {
    match c.parent {
        None => true,
        Some(TypeModel::Class(p)) => fuel > 0 && chain_ok(classes, p, (fuel - 1) as nat),
        Some(_) => false,
    }
}

/// Every class reaches a class without superclass; every class is filed under its name.
pub open spec fn hierarchy_ok(classes: Map<Seq<char>, ClassModel>) -> bool {
    &&& forall|k: Seq<char>| #[trigger] classes.contains_key(k) ==> classes[k].name == k
    &&& forall|k: Seq<char>| #[trigger] classes.contains_key(k) ==> exists|f: nat| chain_ok(classes, k, f)
}

pub open spec fn chain_fuel(classes: Map<Seq<char>, ClassModel>, name: Seq<char>) -> nat {
    choose|f: nat| chain_ok(classes, name, f)
}

pub open spec fn desc_fuel(classes: Map<Seq<char>, ClassModel>, c: ClassModel) -> nat {
    choose|f: nat| desc_chain_ok(classes, c, f)
}

/// `sub` is `sup` or, within `fuel` steps, inherits from it.
pub open spec fn subclass_within(classes: Map<Seq<char>, ClassModel>, sup: Seq<char>, sub: Seq<char>, fuel: nat) -> bool
    decreases fuel,
{
    classes[sub].name == sup || match parent_name(classes[sub]) {
        Some(p) => fuel > 0 && subclass_within(classes, sup, p, (fuel - 1) as nat),
        None => false,
    }
}

/// `sub` is `sup` or inherits from it.
pub open spec fn is_subclass(classes: Map<Seq<char>, ClassModel>, sup: Seq<char>, sub: Seq<char>) -> bool {
    subclass_within(classes, sup, sub, chain_fuel(classes, sub))
}

/// The member `name` of class `c`, looked up in `c` and then, within `fuel` steps, its superclasses.
pub open spec fn item_within(classes: Map<Seq<char>, ClassModel>, c: ClassModel, name: Seq<char>, fuel: nat) -> Option<ItemModel>
    decreases fuel,
{
    if c.items.contains_key(name) {
        Some(c.items[name])
    } else {
        match parent_name(c) {
            Some(p) => if fuel > 0 && classes.contains_key(p) {
                item_within(classes, classes[p], name, (fuel - 1) as nat)
            } else {
                None
            },
            None => None,
        }
    }
}

/// The member `name` of class `c`, its own or inherited.
pub open spec fn item_of(classes: Map<Seq<char>, ClassModel>, c: ClassModel, name: Seq<char>) -> Option<ItemModel> {
    item_within(classes, c, name, desc_fuel(classes, c))
}

/// What following superclasses from `cur` meets first: an undefined class, the class
/// `start` again, or a class without superclass. `None` when `fuel` runs out first or
/// a superclass that is no class is met.
pub enum Walk {
    Undefined,
    Cycle,
    Fine,
}

pub open spec fn walk_from(classes: Map<Seq<char>, ClassModel>, start: Seq<char>, cur: Seq<char>, fuel: nat) -> Option<Walk>
    decreases fuel,
{
    if !classes.contains_key(cur) {
        Some(Walk::Undefined)
    } else if classes[cur].name == start {
        Some(Walk::Cycle)
    } else {
        match classes[cur].parent {
            None => Some(Walk::Fine),
            Some(TypeModel::Class(p)) => if fuel == 0 { None } else { walk_from(classes, start, p, (fuel - 1) as nat) },
            Some(_) => None,
        }
    }
}

/// The walk from `cur` ends.
pub open spec fn walk_ends(classes: Map<Seq<char>, ClassModel>, start: Seq<char>, cur: Seq<char>) -> bool {
    exists|f: nat| (#[trigger] walk_from(classes, start, cur, f)) is Some
}

pub open spec fn walk_result(classes: Map<Seq<char>, ClassModel>, start: Seq<char>, cur: Seq<char>) -> Walk {
    walk_from(classes, start, cur, choose|f: nat| (#[trigger] walk_from(classes, start, cur, f)) is Some)->0
}

/// A walk that ends at a class without superclass passes a chain that ends.
pub proof fn lemma_walk_fine_chain(classes: Map<Seq<char>, ClassModel>, start: Seq<char>, cur: Seq<char>, fuel: nat)
    requires
        walk_from(classes, start, cur, fuel) == Some(Walk::Fine),
    ensures
        chain_ok(classes, cur, fuel),
    decreases fuel,
{
    match classes[cur].parent {
        Some(TypeModel::Class(p)) => lemma_walk_fine_chain(classes, start, p, (fuel - 1) as nat),
        _ => {},
    }
}

/// The two types are compatible element by element, as far as arrays go; for two classes,
/// the second inherits from the first, and the pair is noted.
pub open spec fn arrays_compat(classes: Map<Seq<char>, ClassModel>, lhs: TypeModel, rhs: TypeModel) -> (bool, Option<(Seq<char>, Seq<char>)>)
    decreases lhs,
{
    match (lhs, rhs) {
        (TypeModel::Array(l), TypeModel::Array(r)) => arrays_compat(classes, *l, *r),
        (TypeModel::Array(_), _) => (false, None),
        (_, TypeModel::Array(_)) => (false, None),
        (TypeModel::Class(sup), TypeModel::Class(sub)) => (is_subclass(classes, sup, sub), Some((sup, sub))),
        _ => (lhs == rhs, None),
    }
}

/// A value of type `rhs` may stand where type `lhs` is expected.
pub open spec fn compatible(classes: Map<Seq<char>, ClassModel>, lhs: TypeModel, rhs: TypeModel) -> bool {
    match (lhs, rhs) {
        (TypeModel::Array(_), TypeModel::Null) => true,
        (TypeModel::Class(_), TypeModel::Null) => true,
        _ => arrays_compat(classes, lhs, rhs).0,
    }
}

/// Each class that a subclass test meets in `rhs`, with `lhs`, is defined and reaches the top.
pub open spec fn compat_defined(classes: Map<Seq<char>, ClassModel>, lhs: TypeModel, rhs: TypeModel) -> bool
    decreases lhs,
{
    match (lhs, rhs) {
        (TypeModel::Array(l), TypeModel::Array(r)) => compat_defined(classes, *l, *r),
        (TypeModel::Class(_), TypeModel::Class(sub)) => exists|f: nat| chain_ok(classes, sub, f),
        _ => true,
    }
}

/// The message for an incompatible pair of types.
pub open spec fn compat_error(classes: Map<Seq<char>, ClassModel>, lhs: TypeModel, rhs: TypeModel) -> Seq<char> {
    match arrays_compat(classes, lhs, rhs).1 {
        Some((sup, sub)) => "Error: expected type "@ + type_text(lhs) + ", got type "@ + type_text(rhs)
            + " (note: "@ + sub + " is not a subclass of "@ + sup + ")"@,
        None => "Error: expected type "@ + type_text(lhs) + ", got type "@ + type_text(rhs),
    }
}

/// What is wrong with `t` as the superclass of class `my_name`, if anything.
pub open spec fn superclass_error(classes: Map<Seq<char>, ClassModel>, t: TypeModel, my_name: Seq<char>) -> Option<Seq<char>> {
    match t {
        TypeModel::Class(p) => match walk_result(classes, my_name, p) {
            Walk::Undefined => Some("Error: invalid type - class not defined"@),
            Walk::Cycle => Some("Error: detected cycle in inheritance chain"@),
            Walk::Fine => None,
        },
        _ => Some("Error: super class must be a class"@),
    }
}

impl GlobalContext {
    fn check_local_var_inner(&self, t: &InnerType, span: Span) -> (res: FrontendResult<()>)
        requires
            self.wf(),
            !has_null(t@),
        ensures
            single_error(res, local_var_type_error(self.classes(), t@), span),
        decreases t,
    {
        match t {
            InnerType::Array(subtype) => self.check_local_var_inner(&**subtype, span),
            InnerType::Class(name) => {
                if self.classes.contains_key(name.as_str()) {
                    Ok(())
                } else {
                    proof { reveal_strlit("Error: invalid type - class not defined"); }
                    one_error("Error: invalid type - class not defined", span)
                }
            },
            InnerType::Void => {
                proof { reveal_strlit("Error: invalid type - cannot use void here"); }
                one_error("Error: invalid type - cannot use void here", span)
            },
            _ => Ok(()),
        }
    }

    /// `Ok` when `t` is a type that a variable can have; else the reason, about `t`'s span.
    pub fn check_local_var_type(&self, t: &Type) -> (res: FrontendResult<()>)
        requires
            self.wf(),
            !has_null(t.inner@),
        ensures
            single_error(res, local_var_type_error(self.classes(), t.inner@), t.span),
    {
        self.check_local_var_inner(&t.inner, t.span)
    }

    /// `Ok` when `t` is a type that a function can return.
    pub fn check_ret_type(&self, t: &Type) -> (res: FrontendResult<()>)
        requires
            self.wf(),
            !has_null(t.inner@),
        ensures
            single_error(res, ret_type_error(self.classes(), t.inner@), t.span),
    {
        if let InnerType::Void = t.inner {
            Ok(())
        } else {
            self.check_local_var_type(t)
        }
    }

    /// Compatibility of two types that are not `null` on the right of an array or class:
    /// arrays element by element, classes by inheritance (noting the pair), others by equality.
    pub fn check_arrays_types_compatibility<'a>(&self, lhs: &'a InnerType, rhs: &'a InnerType) -> (res: (
        bool,
        Option<(&'a str, &'a str)>,
    ))
        requires
            self.wf(),
            compat_defined(self.classes(), lhs@, rhs@),
        ensures
            res.0 == arrays_compat(self.classes(), lhs@, rhs@).0,
            match res.1 {
                Some((a, b)) => arrays_compat(self.classes(), lhs@, rhs@).1 == Some((a@, b@)),
                None => arrays_compat(self.classes(), lhs@, rhs@).1 is None,
            },
        decreases lhs,
    {
        match lhs {
            InnerType::Array(lhs2) => match rhs {
                InnerType::Array(rhs2) => self.check_arrays_types_compatibility(&**lhs2, &**rhs2),
                _ => (false, None),
            },
            InnerType::Class(superclass) => match rhs {
                InnerType::Array(_) => (false, None),
                InnerType::Class(subclass) => (
                    self.check_if_subclass(superclass.as_str(), subclass.as_str()),
                    Some((superclass.as_str(), subclass.as_str())),
                ),
                _ => (inner_type_eq(lhs, rhs), None),
            },
            _ => match rhs {
                InnerType::Array(_) => (false, None),
                _ => (inner_type_eq(lhs, rhs), None),
            },
        }
    }

    /// `Ok` when a value of type `rhs` may stand where `lhs` is expected; else one error about `span`.
    pub fn check_types_compatibility(&self, lhs: &InnerType, rhs: &InnerType, span: Span) -> (res: FrontendResult<()>)
        requires
            self.wf(),
            compat_defined(self.classes(), lhs@, rhs@),
        ensures
            single_error(
                res,
                if compatible(self.classes(), lhs@, rhs@) { None } else { Some(compat_error(self.classes(), lhs@, rhs@)) },
                span,
            ),
    {
        match (lhs, rhs) {
            (InnerType::Array(_), InnerType::Null) => return Ok(()),
            (InnerType::Class(_), InnerType::Null) => return Ok(()),
            _ => {},
        }
        let (ok, note) = self.check_arrays_types_compatibility(lhs, rhs);
        if ok {
            return Ok(());
        }
        let mut err = String::new();
        append_str(&mut err, "Error: expected type ");
        lhs.append_text(&mut err);
        append_str(&mut err, ", got type ");
        rhs.append_text(&mut err);
        if let Some((superclass, subclass)) = note {
            append_str(&mut err, " (note: ");
            append_str(&mut err, subclass);
            append_str(&mut err, " is not a subclass of ");
            append_str(&mut err, superclass);
            append_str(&mut err, ")");
        }
        assert(err@ =~= compat_error(self.classes(), lhs@, rhs@));
        Err(vec![FrontendError { err, span }])
    }

    /// Follows superclasses from `cur_name`: an error when it meets an undefined class, or the
    /// class `start_name` again; `Ok` when it reaches a class without superclass.
    pub fn check_for_inheritance_cycle(&self, start_name: &str, cur_name: &str, span: Span) -> (res: FrontendResult<()>)
        requires
            self.wf(),
            walk_ends(self.classes(), start_name@, cur_name@),
        ensures
            single_error(
                res,
                match walk_result(self.classes(), start_name@, cur_name@) {
                    Walk::Undefined => Some("Error: invalid type - class not defined"@),
                    Walk::Cycle => Some("Error: detected cycle in inheritance chain"@),
                    Walk::Fine => None,
                },
                span,
            ),
    {
        let ghost classes = self.classes();
        let ghost fuel0 = choose|f: nat| (#[trigger] walk_from(classes, start_name@, cur_name@, f)) is Some;
        let ghost mut fuel = fuel0;
        let ghost mut key = cur_name@;
        proof {
            reveal_strlit("Error: invalid type - class not defined");
            reveal_strlit("Error: detected cycle in inheritance chain");
        }
        let mut cur: &str = cur_name;
        loop
            invariant
                self.wf(),
                classes == self.classes(),
                key == cur@,
                walk_from(classes, start_name@, key, fuel) is Some,
                walk_result(classes, start_name@, cur_name@) == walk_from(classes, start_name@, key, fuel)->0,
            decreases fuel,
        {
            match self.get_class_description(cur) {
                Some(cl) => {
                    if crate::text::str_eq(cl.name.as_str(), start_name) {
                        return one_error("Error: detected cycle in inheritance chain", span);
                    }
                    match &cl.parent_type {
                        Some(t) => match &t.inner {
                            InnerType::Class(parent_name) => {
                                assert(t.inner@ == TypeModel::Class(parent_name@));
                                proof {
                                    key = parent_name@;
                                    fuel = (fuel - 1) as nat;
                                }
                                cur = parent_name.as_str();
                            },
                            _ => {
                                assert(false);
                                return Ok(());
                            },
                        },
                        None => {
                            return Ok(());
                        },
                    }
                },
                None => {
                    return one_error("Error: invalid type - class not defined", span);
                },
            }
        }
    }

    /// `Ok` when `t`, the declared superclass of class `my_name`, is a class whose superclasses
    /// lead neither back to `my_name` nor to an undefined class.
    pub fn check_superclass_type(&self, t: &Type, my_name: &str) -> (res: FrontendResult<()>)
        requires
            self.wf(),
            t.inner@ matches TypeModel::Class(p) ==> walk_ends(self.classes(), my_name@, p),
        ensures
            single_error(res, superclass_error(self.classes(), t.inner@, my_name@), t.span),
    {
        if let InnerType::Class(parent_name) = &t.inner {
            self.check_for_inheritance_cycle(my_name, parent_name.as_str(), t.span)
        } else {
            proof { reveal_strlit("Error: super class must be a class"); }
            one_error("Error: super class must be a class", t.span)
        }
    }

    /// Whether `subclass` is `superclass` or inherits from it.
    pub fn check_if_subclass(&self, superclass: &str, subclass: &str) -> (res: bool)
        requires
            self.wf(),
            exists|f: nat| chain_ok(self.classes(), subclass@, f),
        ensures
            res == is_subclass(self.classes(), superclass@, subclass@),
    {
        let ghost classes = self.classes();
        let ghost fuel0 = chain_fuel(classes, subclass@);
        let ghost mut fuel = fuel0;
        let ghost mut key = subclass@;
        let mut cur = self.get_class_description(subclass).unwrap();
        loop
            invariant
                self.wf(),
                classes == self.classes(),
                classes.contains_key(key),
                cur@ == classes[key],
                chain_ok(classes, key, fuel),
                is_subclass(classes, superclass@, subclass@) == subclass_within(classes, superclass@, key, fuel),
            decreases fuel,
        {
            if crate::text::str_eq(cur.name.as_str(), superclass) {
                return true;
            }
            match &cur.parent_type {
                Some(t) => match &t.inner {
                    InnerType::Class(parent_name) => {
                        assert(t.inner@ == TypeModel::Class(parent_name@));
                        assert(cur@.parent == Some(TypeModel::Class(parent_name@)));
                        assert(chain_ok(classes, parent_name@, (fuel - 1) as nat));
                        assert(classes.contains_key(parent_name@));
                        proof {
                            key = parent_name@;
                            fuel = (fuel - 1) as nat;
                        }
                        cur = self.get_class_description(parent_name.as_str()).unwrap();
                    },
                    _ => {
                        assert(false);
                        return false;
                    },
                },
                None => {
                    return false;
                },
            }
        }
    }
}


/// The name a class member is declared under.
pub open spec fn item_name(it: crate::model::ast::ClassItemDef) -> Seq<char> {
    match it.inner {
        InnerClassItemDef::Field(_, id) => id.inner@,
        InnerClassItemDef::Method(f) => f.name.inner@,
        InnerClassItemDef::Error => Seq::empty(),
    }
}

/// What a class member declares.
pub open spec fn item_model(it: crate::model::ast::ClassItemDef) -> ItemModel {
    match it.inner {
        InnerClassItemDef::Field(t, _) => ItemModel::Var(t.inner@),
        InnerClassItemDef::Method(f) => ItemModel::Fun(fun_model(f)),
        InnerClassItemDef::Error => ItemModel::Var(TypeModel::Void),
    }
}

/// The members of a class by name, later declarations winning.
pub open spec fn items_map(items: Seq<crate::model::ast::ClassItemDef>) -> Map<Seq<char>, ItemModel>
    decreases items.len(),
{
    if items.len() == 0 {
        Map::empty()
    } else {
        items_map(items.drop_last()).insert(item_name(items.last()), item_model(items.last()))
    }
}

/// No two members share a name.
pub open spec fn items_distinct(items: Seq<crate::model::ast::ClassItemDef>) -> bool {
    forall|i: int, j: int|
        0 <= i < items.len() && 0 <= j < items.len() && i != j ==> #[trigger] item_name(items[i])
            != #[trigger] item_name(items[j])
}

pub proof fn lemma_items_map_dom(items: Seq<crate::model::ast::ClassItemDef>)
    ensures
        forall|k: Seq<char>|
            #[trigger] items_map(items).contains_key(k) <==> exists|i: int|
                0 <= i < items.len() && item_name(items[i]) == k,
    decreases items.len(),
{
    if items.len() > 0 {
        let p = items.drop_last();
        lemma_items_map_dom(p);
        assert forall|k: Seq<char>|
            #[trigger] items_map(items).contains_key(k) <==> exists|i: int|
                0 <= i < items.len() && item_name(items[i]) == k by {
            if items_map(items).contains_key(k) && k != item_name(items.last()) {
                assert(items_map(p).contains_key(k));
                let i = choose|i: int| 0 <= i < p.len() && item_name(p[i]) == k;
                assert(item_name(items[i]) == k);
            }
            if k == item_name(items.last()) {
                assert(item_name(items[items.len() - 1]) == k);
            }
            if exists|i: int| 0 <= i < items.len() && item_name(items[i]) == k {
                let i = choose|i: int| 0 <= i < items.len() && item_name(items[i]) == k;
                if i < items.len() - 1 {
                    assert(item_name(p[i]) == k);
                    assert(items_map(p).contains_key(k));
                }
            }
        }
    }
}

/// The class that a class definition declares.
pub open spec fn class_model(cl: ClassDef) -> ClassModel {
    ClassModel { name: cl.name.inner@, parent: opt_type_model(cl.parent_type), items: items_map(cl.items@) }
}

/// The class definition holds no member that failed to parse.
pub open spec fn items_parsed(cl: ClassDef) -> bool {
    forall|i: int| 0 <= i < cl.items@.len() ==> (#[trigger] cl.items@[i]).inner !is Error
}

/// Every error says that a member was declared twice.
pub open spec fn all_redefinitions(errors: Seq<FrontendError>) -> bool {
    forall|i: int| 0 <= i < errors.len() ==> (#[trigger] errors[i]).err@ == "Error: class item redefinition"@
}

impl ClassDesc {
    /// The class that a class definition declares; an error for each member that reuses
    /// the name of an earlier one.
    pub fn from(cldef: &ClassDef) -> (res: FrontendResult<ClassDesc>)
        requires
            items_parsed(*cldef),
        ensures
            items_distinct(cldef.items@) ==> (res matches Ok(d) && d@ == class_model(*cldef) && d.wf()),
            !items_distinct(cldef.items@) ==> (res matches Err(e) && e@.len() > 0 && all_redefinitions(e@)),
    {
        proof { reveal_strlit("Error: class item redefinition"); }
        let mut errors: Vec<FrontendError> = Vec::new();
        let mut items: NameMap<TypeWrapper> = NameMap::new();
        let mut i: usize = 0;
        while i < cldef.items.len()
            invariant
                items_parsed(*cldef),
                i <= cldef.items@.len(),
                items.wf(),
                items@.map_values(|w: TypeWrapper| w@) == items_map(cldef.items@.take(i as int)),
                errors@.len() == 0 <==> items_distinct(cldef.items@.take(i as int)),
                all_redefinitions(errors@),
            decreases cldef.items@.len() - i,
        {
            let ghost prefix = cldef.items@.take(i as int);
            let ghost next = cldef.items@.take(i + 1);
            let item = &cldef.items[i];
            assert(item.inner !is Error);
            let (name, t, span) = match &item.inner {
                InnerClassItemDef::Field(t, id) => (id.inner.clone(), TypeWrapper::Var(t.clone()), item.span),
                InnerClassItemDef::Method(fun) => (fun.name.inner.clone(), TypeWrapper::Fun(FunDesc::from(fun)), fun.name.span),
                InnerClassItemDef::Error => {
                    assert(false);
                    (String::new(), TypeWrapper::Var(Type { inner: InnerType::Void, span: EMPTY_SPAN }), EMPTY_SPAN)
                },
            };
            assert(name@ == item_name(*item));
            assert(t@ == item_model(*item));
            proof {
                assert(next.drop_last() =~= prefix);
                assert(next.last() == *item);
                lemma_items_map_dom(prefix);
                assert(items@.dom() =~= items_map(prefix).dom());
            }
            let ghost before = items@;
            let prev = items.insert(name, t);
            proof {
                assert(items@.map_values(|w: TypeWrapper| w@) =~= items_map(next));
                if prev.is_some() {
                    assert(items_map(prefix).contains_key(item_name(*item)));
                    let j = choose|j: int| 0 <= j < prefix.len() && item_name(prefix[j]) == item_name(*item);
                    assert(item_name(next[j]) == item_name(next[i as int]));
                    assert(!items_distinct(next));
                } else {
                    assert(!items_map(prefix).contains_key(item_name(*item)));
                    if items_distinct(prefix) {
                        assert forall|a: int, b: int|
                            0 <= a < next.len() && 0 <= b < next.len() && a != b implies #[trigger] item_name(next[a])
                                != #[trigger] item_name(next[b]) by {
                            if a < prefix.len() && b < prefix.len() {
                                assert(next[a] == prefix[a]);
                                assert(next[b] == prefix[b]);
                            } else if a < prefix.len() {
                                assert(next[a] == prefix[a]);
                            } else {
                                assert(next[b] == prefix[b]);
                            }
                        }
                    } else {
                        let (a, b) = choose|a: int, b: int| 0 <= a < prefix.len() && 0 <= b < prefix.len() && a != b && item_name(prefix[a]) == item_name(prefix[b]);
                        assert(item_name(next[a]) == item_name(next[b]));
                    }
                }
            }
            if prev.is_some() {
                errors.push(FrontendError { err: "Error: class item redefinition".to_owned(), span });
            }
            i = i + 1;
        }
        proof {
            assert(cldef.items@.take(cldef.items@.len() as int) =~= cldef.items@);
        }
        if errors.len() == 0 {
            let res = ClassDesc { name: cldef.name.inner.clone(), parent_type: match &cldef.parent_type {
                Some(t) => Some(t.clone()),
                None => None,
            }, items };
            assert(res@ =~= class_model(*cldef));
            Ok(res)
        } else {
            Err(errors)
        }
    }

    /// The member `name` of this class, its own or inherited.
    pub fn get_item<'a>(&'a self, global_ctx: &'a GlobalContext, name: &str) -> (res: Option<&'a TypeWrapper>)
        requires
            self.wf(),
            global_ctx.wf(),
            exists|f: nat| desc_chain_ok(global_ctx.classes(), self@, f),
        ensures
            match res {
                Some(w) => item_of(global_ctx.classes(), self@, name@) == Some(w@),
                None => item_of(global_ctx.classes(), self@, name@) is None,
            },
    {
        let ghost classes = global_ctx.classes();
        let ghost fuel0 = desc_fuel(classes, self@);
        let ghost mut fuel = fuel0;
        let mut cur: &ClassDesc = self;
        loop
            invariant
                global_ctx.wf(),
                classes == global_ctx.classes(),
                cur.wf(),
                desc_chain_ok(classes, cur@, fuel),
                item_of(classes, self@, name@) == item_within(classes, cur@, name@, fuel),
            decreases fuel,
        {
            match cur.items.get(name) {
                Some(it) => {
                    assert(cur@.items.contains_key(name@));
                    return Some(it);
                },
                None => {
                    assert(!cur@.items.contains_key(name@));
                    match &cur.parent_type {
                        Some(t) => match &t.inner {
                            InnerType::Class(parent_name) => {
                                assert(t.inner@ == TypeModel::Class(parent_name@));
                                assert(cur@.parent == Some(TypeModel::Class(parent_name@)));
                                assert(chain_ok(classes, parent_name@, (fuel - 1) as nat));
                                assert(classes.contains_key(parent_name@));
                                proof {
                                    fuel = (fuel - 1) as nat;
                                }
                                cur = global_ctx.get_class_description(parent_name.as_str()).unwrap();
                            },
                            _ => {
                                assert(false);
                                return None;
                            },
                        },
                        None => {
                            return None;
                        },
                    }
                },
            }
        }
    }
}


/// The signature mentions no `null` type.
pub open spec fn fun_null_free(f: FunModel) -> bool {
    !has_null(f.ret) && forall|i: int| 0 <= i < f.args.len() ==> !has_null(#[trigger] f.args[i])
}

/// The return type and all parameter types of a signature are valid.
pub open spec fn fun_types_ok(classes: Map<Seq<char>, ClassModel>, f: FunModel) -> bool {
    ret_type_error(classes, f.ret) is None
        && forall|i: int| 0 <= i < f.args.len() ==> (#[trigger] local_var_type_error(classes, f.args[i])) is None
}

impl FunDesc {
    /// `Ok` when the return type and every parameter type are valid; else one error for each
    /// that is not.
    pub fn check_types(&self, ctx: &GlobalContext) -> (res: FrontendResult<()>)
        requires
            ctx.wf(),
            fun_null_free(self@),
        ensures
            res is Ok <==> fun_types_ok(ctx.classes(), self@),
            res matches Err(e) ==> e@.len() > 0,
    {
        let mut errors: Vec<FrontendError> = Vec::new();
        let r = ctx.check_ret_type(&self.ret_type);
        let ghost ret_ok = r is Ok;
        r.accumulate_errors_in(&mut errors);
        let mut i: usize = 0;
        while i < self.args_types.len()
            invariant
                ctx.wf(),
                fun_null_free(self@),
                i <= self.args_types@.len(),
                errors@.len() == 0 <==> (ret_ok && forall|j: int| 0 <= j < i ==> (#[trigger] local_var_type_error(ctx.classes(), self@.args[j])) is None),
                ret_ok == (ret_type_error(ctx.classes(), self@.ret) is None),
            decreases self.args_types@.len() - i,
        {
            assert(!has_null(self@.args[i as int]));
            let r = ctx.check_local_var_type(&self.args_types[i]);
            let ghost before = errors@.len();
            r.accumulate_errors_in(&mut errors);
            proof {
                if errors@.len() == 0 {
                    assert forall|j: int| 0 <= j < i + 1 implies (#[trigger] local_var_type_error(ctx.classes(), self@.args[j])) is None by {
                        if j == i {
                            assert(self@.args[j] == self.args_types@[j].inner@);
                        }
                    }
                }
                if local_var_type_error(ctx.classes(), self@.args[i as int]) is Some {
                    assert(errors_of(r).len() > 0);
                }
            }
            i = i + 1;
        }
        ok_if_no_error(errors)
    }
}

/// A member is valid: fields have valid types and hide nothing inherited; methods have valid
/// signatures and override only methods with the same signature.
pub open spec fn item_ok(classes: Map<Seq<char>, ClassModel>, name: Seq<char>, w: ItemModel, parent: Option<ClassModel>) -> bool {
    let in_parent = match parent {
        Some(pd) => item_of(classes, pd, name),
        None => None,
    };
    match w {
        ItemModel::Var(t) => local_var_type_error(classes, t) is None && in_parent is None,
        ItemModel::Fun(f) => fun_types_ok(classes, f) && match in_parent {
            Some(ItemModel::Var(_)) => false,
            Some(ItemModel::Fun(pf)) => f == pf,
            None => true,
        },
    }
}

/// The superclass of `c`, when its declaration is valid.
pub open spec fn checked_parent(classes: Map<Seq<char>, ClassModel>, c: ClassModel) -> Option<ClassModel> {
    match c.parent {
        Some(TypeModel::Class(p)) => if superclass_error(classes, TypeModel::Class(p), c.name) is None {
            Some(classes[p])
        } else {
            None
        },
        _ => None,
    }
}

/// The class's superclass declaration and all its members are valid.
pub open spec fn class_types_ok(classes: Map<Seq<char>, ClassModel>, c: ClassModel) -> bool {
    &&& match c.parent {
        Some(t) => superclass_error(classes, t, c.name) is None,
        None => true,
    }
    &&& forall|k: Seq<char>| #[trigger] c.items.contains_key(k) ==> item_ok(classes, k, c.items[k], checked_parent(classes, c))
}

/// The class's members mention no `null` type.
pub open spec fn class_null_free(c: ClassModel) -> bool {
    forall|k: Seq<char>| #[trigger] c.items.contains_key(k) ==> match c.items[k] {
        ItemModel::Var(t) => !has_null(t),
        ItemModel::Fun(f) => fun_null_free(f),
    }
}

/// Checking the class's superclass ends.
pub open spec fn class_walk_ends(classes: Map<Seq<char>, ClassModel>, c: ClassModel) -> bool {
    c.parent matches Some(TypeModel::Class(p)) ==> walk_ends(classes, c.name, p)
}

impl ClassDesc {
    /// `Ok` when the superclass declaration and every member are valid; else errors.
    pub fn check_types(&self, ctx: &GlobalContext) -> (res: FrontendResult<()>)
        requires
            ctx.wf(),
            self.wf(),
            class_null_free(self@),
            class_walk_ends(ctx.classes(), self@),
        ensures
            res is Ok <==> class_types_ok(ctx.classes(), self@),
            res matches Err(e) ==> e@.len() > 0,
    {
        let ghost classes = ctx.classes();
        let mut errors: Vec<FrontendError> = Vec::new();
        let parent_desc: Option<&ClassDesc> = match &self.parent_type {
            Some(t) => {
                let r = ctx.check_superclass_type(t, self.name.as_str());
                r.accumulate_errors_in(&mut errors);
                if errors.len() == 0 {
                    match &t.inner {
                        InnerType::Class(parent_name) => {
                            proof {
                                let f = choose|f: nat| (#[trigger] walk_from(classes, self@.name, parent_name@, f)) is Some;
                                lemma_walk_fine_chain(classes, self@.name, parent_name@, f);
                                assert(desc_chain_ok(classes, classes[parent_name@], f));
                            }
                            ctx.get_class_description(parent_name.as_str())
                        },
                        _ => None,
                    }
                } else {
                    None
                }
            },
            None => None,
        };
        assert(parent_desc matches Some(pd) ==> Some(pd@) == checked_parent(classes, self@));
        assert(parent_desc is None ==> checked_parent(classes, self@) is None);
        let ghost parent_ok = errors@.len() == 0;
        let ghost entries = self.items.entries();
        proof { self.items.lemma_view(); }
        let mut i: usize = 0;
        while i < self.items.len()
            invariant
                ctx.wf(),
                self.wf(),
                classes == ctx.classes(),
                class_null_free(self@),
                entries == self.items.entries(),
                i <= entries.len(),
                parent_desc matches Some(pd) ==> (pd.wf() && Some(pd@) == checked_parent(classes, self@)
                    && exists|f: nat| desc_chain_ok(classes, pd@, f)),
                parent_desc is None ==> checked_parent(classes, self@) is None,
                errors@.len() == 0 <==> (parent_ok && forall|j: int| 0 <= j < i ==> item_ok(classes, (#[trigger] entries[j]).0@, entries[j].1@, checked_parent(classes, self@))),
            decreases entries.len() - i,
        {
            let entry = self.items.entry_at(i);
            let name = &entry.0;
            let t = &entry.1;
            proof {
                self.items.lemma_view();
                assert(self@.items.contains_key(name@));
                assert(self@.items[name@] == t@);
            }
            let t_in_parent = match parent_desc {
                Some(p_desc) => p_desc.get_item(ctx, name.as_str()),
                None => None,
            };
            let ghost in_parent = match checked_parent(classes, self@) { Some(pd) => item_of(classes, pd, name@), None => None };
            assert(match t_in_parent { Some(w) => in_parent == Some(w@), None => in_parent is None });
            let ghost before = errors@.len();
            match t {
                TypeWrapper::Var(var_type) => {
                    let r = ctx.check_local_var_type(var_type);
                    r.accumulate_errors_in(&mut errors);
                    if t_in_parent.is_some() {
                        errors.push(FrontendError {
                            err: field_in_superclass_message(name.as_str()),
                            span: var_type.span,
                        });
                    }
                    assert((local_var_type_error(classes, var_type.inner@) is None && in_parent is None) <==> errors@.len() == before);
                },
                TypeWrapper::Fun(fun_desc) => {
                    assert(fun_null_free(fun_desc@));
                    let r = fun_desc.check_types(ctx);
                    r.accumulate_errors_in(&mut errors);
                    match t_in_parent {
                        Some(TypeWrapper::Var(_)) => {
                            errors.push(FrontendError {
                                err: field_named_in_superclass_message(name.as_str()),
                                span: fun_desc.ret_type.span,
                            });
                        },
                        Some(TypeWrapper::Fun(parent_fun)) => {
                            if !fun_desc.does_signature_match(parent_fun) {
                                errors.push(FrontendError {
                                    err: "Error: method signature does not match method defined in superclass".to_owned(),
                                    span: fun_desc.ret_type.span,
                                });
                            }
                        },
                        None => {},
                    }
                    assert((fun_types_ok(classes, fun_desc@) && match in_parent {
                        Some(ItemModel::Var(_)) => false,
                        Some(ItemModel::Fun(pf)) => fun_desc@ == pf,
                        None => true,
                    }) <==> errors@.len() == before);
                },
            }
            proof {
                let ok_i = item_ok(classes, entries[i as int].0@, entries[i as int].1@, checked_parent(classes, self@));
                assert(ok_i <==> errors@.len() == before);
                if errors@.len() == 0 {
                    assert forall|j: int| 0 <= j < i + 1 implies item_ok(classes, (#[trigger] entries[j]).0@, entries[j].1@, checked_parent(classes, self@)) by {}
                }
            }
            i = i + 1;
        }
        proof {
            self.items.lemma_view();
            if errors@.len() == 0 {
                assert forall|k: Seq<char>| #[trigger] self@.items.contains_key(k) implies item_ok(classes, k, self@.items[k], checked_parent(classes, self@)) by {
                    let j = choose|j: int| 0 <= j < entries.len() && entries[j].0@ == k;
                    assert(item_ok(classes, entries[j].0@, entries[j].1@, checked_parent(classes, self@)));
                }
            } else if parent_ok {
                let j = choose|j: int| 0 <= j < entries.len() && !item_ok(classes, (#[trigger] entries[j]).0@, entries[j].1@, checked_parent(classes, self@));
                assert(self@.items.contains_key(entries[j].0@));
            }
        }
        ok_if_no_error(errors)
    }
}

fn field_in_superclass_message(name: &str) -> (res: String)
    ensures
        res@ == "Error: field or method named '"@ + name@ + "' already defined in superclass"@,
{
    let mut s = String::new();
    append_str(&mut s, "Error: field or method named '");
    append_str(&mut s, name);
    append_str(&mut s, "' already defined in superclass");
    s
}

fn field_named_in_superclass_message(name: &str) -> (res: String)
    ensures
        res@ == "Error: field named '"@ + name@ + "' already defined in superclass"@,
{
    let mut s = String::new();
    append_str(&mut s, "Error: field named '");
    append_str(&mut s, name);
    append_str(&mut s, "' already defined in superclass");
    s
}


/// The top-level declarations gathered so far, and whether all were accepted.
pub struct ScanModel {
    pub classes: Map<Seq<char>, ClassModel>,
    pub functions: Map<Seq<char>, FunModel>,
    pub ok: bool,
}

/// Taking one more top-level definition into account. A function may not share its name
/// with a class, nor be defined twice; a class may not share its name with a function,
/// nor be defined twice, nor repeat a member name. A later definition replaces an earlier
/// one of the same kind and name.
pub open spec fn scan_step(st: ScanModel, def: TopDef) -> ScanModel {
    match def {
        TopDef::FunDef(f) => {
            let fm = fun_model(f);
            if st.classes.contains_key(fm.name) {
                ScanModel { ok: false, ..st }
            } else {
                ScanModel {
                    functions: st.functions.insert(fm.name, fm),
                    ok: st.ok && !st.functions.contains_key(fm.name),
                    ..st
                }
            }
        },
        TopDef::ClassDef(cl) => {
            if !items_distinct(cl.items@) {
                ScanModel { ok: false, ..st }
            } else {
                let cm = class_model(cl);
                if st.functions.contains_key(cm.name) {
                    ScanModel { ok: false, ..st }
                } else {
                    ScanModel {
                        classes: st.classes.insert(cm.name, cm),
                        ok: st.ok && !st.classes.contains_key(cm.name),
                        ..st
                    }
                }
            }
        },
        TopDef::Error => st,
    }
}

pub open spec fn scan_from(start: ScanModel, defs: Seq<TopDef>) -> ScanModel
    decreases defs.len(),
{
    if defs.len() == 0 {
        start
    } else {
        scan_step(scan_from(start, defs.drop_last()), defs.last())
    }
}

/// The declarations of a program, with the builtin functions.
pub open spec fn scan_program(prog: Program) -> ScanModel {
    scan_from(ScanModel { classes: Map::empty(), functions: builtin_functions(), ok: true }, prog.defs@)
}

/// No top-level definition or class member failed to parse.
pub open spec fn defs_parsed(defs: Seq<TopDef>) -> bool {
    forall|i: int| 0 <= i < defs.len() ==> match #[trigger] defs[i] {
        TopDef::Error => false,
        TopDef::ClassDef(cl) => items_parsed(cl),
        TopDef::FunDef(_) => true,
    }
}

/// The declarations mention no `null` type.
pub open spec fn scan_null_free(st: ScanModel) -> bool {
    &&& forall|k: Seq<char>| #[trigger] st.functions.contains_key(k) ==> fun_null_free(st.functions[k])
    &&& forall|k: Seq<char>| #[trigger] st.classes.contains_key(k) ==> class_null_free(st.classes[k])
}

/// Every declared type is valid, and checking every superclass declaration ends.
pub open spec fn all_types_ok(st: ScanModel) -> bool {
    &&& forall|k: Seq<char>| #[trigger] st.functions.contains_key(k) ==> fun_types_ok(st.classes, st.functions[k])
    &&& forall|k: Seq<char>| #[trigger] st.classes.contains_key(k) ==> class_types_ok(st.classes, st.classes[k])
}

impl GlobalContext {
    /// A context holding the builtin functions and no class.
    pub fn new_with_builtins() -> (res: Self)
        ensures
            res.wf(),
            res.classes() == Map::<Seq<char>, ClassModel>::empty(),
            res.functions() == builtin_functions(),
    {
        let res = GlobalContext { classes: NameMap::new(), functions: get_builtin_functions() };
        assert(res.classes() =~= Map::<Seq<char>, ClassModel>::empty());
        res
    }

    /// Records every top-level definition of `prog`; an error for each that clashes.
    pub fn scan_global_defenitions(&mut self, prog: &Program) -> (res: FrontendResult<()>)
        requires
            old(self).wf(),
            defs_parsed(prog.defs@),
        ensures
            final(self).wf(),
            ({
                let st = scan_from(ScanModel { classes: old(self).classes(), functions: old(self).functions(), ok: true }, prog.defs@);
                &&& final(self).classes() == st.classes
                &&& final(self).functions() == st.functions
                &&& (res is Ok <==> st.ok)
            }),
            res matches Err(e) ==> e@.len() > 0,
    {
        let ghost start = ScanModel { classes: self.classes(), functions: self.functions(), ok: true };
        let mut errors: Vec<FrontendError> = Vec::new();
        let mut i: usize = 0;
        while i < prog.defs.len()
            invariant
                self.wf(),
                defs_parsed(prog.defs@),
                i <= prog.defs@.len(),
                ({
                    let st = scan_from(start, prog.defs@.take(i as int));
                    &&& self.classes() == st.classes
                    &&& self.functions() == st.functions
                    &&& (errors@.len() == 0 <==> st.ok)
                }),
            decreases prog.defs@.len() - i,
        {
            let ghost prefix = prog.defs@.take(i as int);
            proof {
                assert(prog.defs@.take(i + 1).drop_last() =~= prefix);
            }
            let ghost st = scan_from(start, prefix);
            match &prog.defs[i] {
                TopDef::FunDef(fun) => {
                    let fun_desc = FunDesc::from(fun);
                    if self.classes.contains_key(fun_desc.name.as_str()) {
                        errors.push(FrontendError { err: "Error: class with same name already defined".to_owned(), span: fun.name.span });
                    } else {
                        let name = fun_desc.name.clone();
                        let ghost fm = fun_desc@;
                        let had = self.functions.contains_key(name.as_str());
                        self.functions.insert(name, fun_desc);
                        proof {
                            assert(self.functions() =~= st.functions.insert(fm.name, fm));
                        }
                        if had {
                            errors.push(FrontendError { err: "Error: function redefinition".to_owned(), span: fun.name.span });
                        }
                    }
                },
                TopDef::ClassDef(cl) => {
                    let class_desc_res = ClassDesc::from(cl);
                    match class_desc_res {
                        Ok(desc) => {
                            if self.functions.contains_key(desc.name.as_str()) {
                                errors.push(FrontendError { err: "Error: function with same name already defined".to_owned(), span: cl.name.span });
                            } else {
                                let name = desc.name.clone();
                                let ghost cm = desc@;
                                let had = self.classes.contains_key(name.as_str());
                                self.classes.insert(name, desc);
                                proof {
                                    assert(self.classes() =~= st.classes.insert(cm.name, cm));
                                }
                                if had {
                                    errors.push(FrontendError { err: "Error: class redefinition".to_owned(), span: cl.name.span });
                                }
                            }
                        },
                        Err(mut err) => {
                            errors.append(&mut err);
                        },
                    }
                },
                TopDef::Error => {
                    assert(false);
                },
            }
            i = i + 1;
        }
        proof {
            assert(prog.defs@.take(prog.defs@.len() as int) =~= prog.defs@);
        }
        ok_if_no_error(errors)
    }
}


impl GlobalContext {
    /// `Ok` when every function signature and every class is valid; else errors.
    pub fn check_types_in_context_defs(&mut self) -> (res: FrontendResult<()>)
        requires
            old(self).wf(),
            scan_null_free(ScanModel { classes: old(self).classes(), functions: old(self).functions(), ok: true }),
            forall|k: Seq<char>| #[trigger] old(self).classes().contains_key(k) ==> class_walk_ends(old(self).classes(), old(self).classes()[k]),
        ensures
            *final(self) == *old(self),
            res is Ok <==> all_types_ok(ScanModel { classes: old(self).classes(), functions: old(self).functions(), ok: true }),
            res matches Err(e) ==> e@.len() > 0,
    {
        let ghost classes = self.classes();
        let ghost functions = self.functions();
        let ghost fentries = self.functions.entries();
        let ghost centries = self.classes.entries();
        proof {
            self.functions.lemma_view();
            self.classes.lemma_view();
        }
        let mut errors: Vec<FrontendError> = Vec::new();
        let mut i: usize = 0;
        while i < self.functions.len()
            invariant
                self.wf(),
                classes == self.classes(),
                functions == self.functions(),
                fentries == self.functions.entries(),
                scan_null_free(ScanModel { classes, functions, ok: true }),
                i <= fentries.len(),
                errors@.len() == 0 <==> forall|j: int| 0 <= j < i ==> fun_types_ok(classes, (#[trigger] fentries[j]).1@),
            decreases fentries.len() - i,
        {
            let f = &self.functions.entry_at(i).1;
            proof {
                self.functions.lemma_view();
                assert(functions.contains_key(fentries[i as int].0@));
                assert(functions[fentries[i as int].0@] == f@);
                let st = ScanModel { classes, functions, ok: true };
                assert(st.functions.contains_key(fentries[i as int].0@));
            }
            let r = f.check_types(&*self);
            r.accumulate_errors_in(&mut errors);
            i = i + 1;
        }
        let ghost funs_ok = errors@.len() == 0;
        let mut i: usize = 0;
        while i < self.classes.len()
            invariant
                self.wf(),
                classes == self.classes(),
                centries == self.classes.entries(),
                scan_null_free(ScanModel { classes, functions, ok: true }),
                forall|k: Seq<char>| #[trigger] classes.contains_key(k) ==> class_walk_ends(classes, classes[k]),
                i <= centries.len(),
                errors@.len() == 0 <==> (funs_ok && forall|j: int| 0 <= j < i ==> class_types_ok(classes, (#[trigger] centries[j]).1@)),
            decreases centries.len() - i,
        {
            let c = &self.classes.entry_at(i).1;
            proof {
                self.classes.lemma_view();
                assert(classes.contains_key(centries[i as int].0@));
                assert(classes[centries[i as int].0@] == c@);
                assert(self.classes@.contains_key(centries[i as int].0@));
                let st = ScanModel { classes, functions, ok: true };
                assert(st.classes.contains_key(centries[i as int].0@));
            }
            let r = c.check_types(&*self);
            r.accumulate_errors_in(&mut errors);
            i = i + 1;
        }
        proof {
            self.functions.lemma_view();
            self.classes.lemma_view();
            let st = ScanModel { classes, functions, ok: true };
            if errors@.len() == 0 {
                assert forall|k: Seq<char>| #[trigger] st.functions.contains_key(k) implies fun_types_ok(st.classes, st.functions[k]) by {
                    let j = choose|j: int| 0 <= j < fentries.len() && fentries[j].0@ == k;
                    assert(fun_types_ok(classes, fentries[j].1@));
                }
                assert forall|k: Seq<char>| #[trigger] st.classes.contains_key(k) implies class_types_ok(st.classes, st.classes[k]) by {
                    let j = choose|j: int| 0 <= j < centries.len() && centries[j].0@ == k;
                    assert(class_types_ok(classes, centries[j].1@));
                }
            } else if !funs_ok {
                let j = choose|j: int| 0 <= j < fentries.len() && !fun_types_ok(classes, (#[trigger] fentries[j]).1@);
                assert(st.functions.contains_key(fentries[j].0@));
            } else {
                let j = choose|j: int| 0 <= j < centries.len() && !class_types_ok(classes, (#[trigger] centries[j]).1@);
                assert(st.classes.contains_key(centries[j].0@));
            }
        }
        ok_if_no_error(errors)
    }
}


/// Every definition of the program mentions no `null` type in its declarations.
pub open spec fn defs_null_free(defs: Seq<TopDef>) -> bool {
    forall|i: int| 0 <= i < defs.len() ==> match #[trigger] defs[i] {
        TopDef::FunDef(f) => fun_null_free(fun_model(f)),
        TopDef::ClassDef(cl) => class_null_free(class_model(cl)),
        TopDef::Error => true,
    }
}

/// Every class is filed under its own name.
pub open spec fn names_consistent(classes: Map<Seq<char>, ClassModel>) -> bool {
    forall|k: Seq<char>| #[trigger] classes.contains_key(k) ==> classes[k].name == k
}

proof fn lemma_scan_invariants(start: ScanModel, defs: Seq<TopDef>)
    requires
        scan_null_free(start),
        names_consistent(start.classes),
        defs_null_free(defs),
    ensures
        scan_null_free(scan_from(start, defs)),
        names_consistent(scan_from(start, defs).classes),
    decreases defs.len(),
{
    if defs.len() > 0 {
        let p = defs.drop_last();
        assert(defs_null_free(p)) by {
            assert forall|i: int| 0 <= i < p.len() implies match #[trigger] p[i] {
                TopDef::FunDef(f) => fun_null_free(fun_model(f)),
                TopDef::ClassDef(cl) => class_null_free(class_model(cl)),
                TopDef::Error => true,
            } by {
                assert(p[i] == defs[i]);
            }
        }
        lemma_scan_invariants(start, p);
        let last = defs[defs.len() - 1];
        assert(defs.last() == last);
    }
}

/// When every class and member checks out, every class reaches the top of its hierarchy.
pub proof fn lemma_checked_hierarchy(st: ScanModel)
    requires
        names_consistent(st.classes),
        all_types_ok(st),
        forall|k: Seq<char>| #[trigger] st.classes.contains_key(k) ==> class_walk_ends(st.classes, st.classes[k]),
    ensures
        hierarchy_ok(st.classes),
{
    let classes = st.classes;
    assert forall|k: Seq<char>| #[trigger] classes.contains_key(k) implies exists|f: nat| chain_ok(classes, k, f) by {
        let c = classes[k];
        assert(class_types_ok(classes, c));
        assert(class_walk_ends(classes, c));
        match c.parent {
            None => {
                assert(chain_ok(classes, k, 0));
            },
            Some(t) => {
                match t {
                    TypeModel::Class(p) => {
                        let f = choose|f: nat| (#[trigger] walk_from(classes, c.name, p, f)) is Some;
                        lemma_walk_fine_chain(classes, c.name, p, f);
                        assert(chain_ok(classes, k, f + 1));
                    },
                    _ => {},
                }
            },
        }
    }
}

impl GlobalContext {
    /// Gathers and checks the top-level declarations of a program: `Ok` with them,
    /// builtins included, when no name clashes and every declared type is valid.
    pub fn from(prog: &Program) -> (res: FrontendResult<Self>)
        requires
            defs_parsed(prog.defs@),
            defs_null_free(prog.defs@),
            forall|k: Seq<char>| #[trigger] scan_program(*prog).classes.contains_key(k) ==> class_walk_ends(
                scan_program(*prog).classes,
                scan_program(*prog).classes[k],
            ),
        ensures
            res is Ok <==> (scan_program(*prog).ok && all_types_ok(scan_program(*prog))),
            res matches Err(e) ==> e@.len() > 0,
            res matches Ok(ctx) ==> {
                &&& ctx.wf()
                &&& ctx.classes() == scan_program(*prog).classes
                &&& ctx.functions() == scan_program(*prog).functions
                &&& hierarchy_ok(ctx.classes())
            },
    {
        let mut result = GlobalContext::new_with_builtins();
        let ghost start = ScanModel { classes: Map::empty(), functions: builtin_functions(), ok: true };
        proof {
            assert(scan_null_free(start)) by {
                assert forall|k: Seq<char>| #[trigger] start.functions.contains_key(k) implies fun_null_free(start.functions[k]) by {
                    reveal_strlit("printInt");
                    reveal_strlit("printString");
                    reveal_strlit("error");
                    reveal_strlit("readInt");
                    reveal_strlit("readString");
                }
            }
            lemma_scan_invariants(start, prog.defs@);
        }
        let mut errors: Vec<FrontendError> = Vec::new();
        let r1 = result.scan_global_defenitions(prog);
        let ghost scan_ok = r1 is Ok;
        r1.accumulate_errors_in(&mut errors);
        assert(result.classes() == scan_program(*prog).classes);
        assert(result.functions() == scan_program(*prog).functions);
        let r2 = result.check_types_in_context_defs();
        let ghost types_ok = r2 is Ok;
        r2.accumulate_errors_in(&mut errors);
        proof {
            if errors@.len() == 0 {
                lemma_checked_hierarchy(ScanModel { classes: result.classes(), functions: result.functions(), ok: true });
            }
        }
        if errors.len() == 0 {
            Ok(result)
        } else {
            Err(errors)
        }
    }
}


/// Once a class is declared, it stays declared, and an accepted scan records every class
/// definition under its name.
pub proof fn lemma_scan_keeps_classes(start: ScanModel, defs: Seq<TopDef>)
    ensures
        forall|k: Seq<char>| #[trigger] start.classes.contains_key(k) ==> scan_from(start, defs).classes.contains_key(k),
        scan_from(start, defs).ok ==> start.ok,
        scan_from(start, defs).ok ==> forall|i: int| 0 <= i < defs.len() ==> (#[trigger] defs[i] matches TopDef::ClassDef(cl)
            ==> scan_from(start, defs).classes.contains_key(cl.name.inner@)),
    decreases defs.len(),
{
    if defs.len() > 0 {
        let p = defs.drop_last();
        lemma_scan_keeps_classes(start, p);
        let st = scan_from(start, p);
        let last = defs.last();
        assert(scan_from(start, defs) == scan_step(st, last));
        if scan_from(start, defs).ok {
            assert forall|i: int| 0 <= i < defs.len() implies (#[trigger] defs[i] matches TopDef::ClassDef(cl)
                ==> scan_from(start, defs).classes.contains_key(cl.name.inner@)) by {
                if i < p.len() {
                    assert(defs[i] == p[i]);
                }
            }
        }
    }
}


/// More fuel never turns a subclass test from true to false.
proof fn lemma_subclass_within_more_fuel(classes: Map<Seq<char>, ClassModel>, sup: Seq<char>, sub: Seq<char>, f: nat, g: nat)
    requires
        subclass_within(classes, sup, sub, f),
        f <= g,
    ensures
        subclass_within(classes, sup, sub, g),
    decreases f,
{
    if classes[sub].name != sup {
        let p = parent_name(classes[sub])->0;
        lemma_subclass_within_more_fuel(classes, sup, p, (f - 1) as nat, (g - 1) as nat);
    }
}

/// Once the chain of superclasses of `sub` ends within `f` steps, more fuel changes no
/// subclass test.
proof fn lemma_subclass_within_settled(classes: Map<Seq<char>, ClassModel>, sup: Seq<char>, sub: Seq<char>, f: nat, g: nat)
    requires
        chain_ok(classes, sub, f),
        f <= g,
    ensures
        subclass_within(classes, sup, sub, f) == subclass_within(classes, sup, sub, g),
    decreases f,
{
    if classes[sub].name != sup {
        match classes[sub].parent {
            Some(TypeModel::Class(p)) => {
                lemma_subclass_within_settled(classes, sup, p, (f - 1) as nat, (g - 1) as nat);
            },
            _ => {},
        }
    }
}

proof fn lemma_subclass_within_trans(
    classes: Map<Seq<char>, ClassModel>,
    a: Seq<char>,
    b: Seq<char>,
    c: Seq<char>,
    f1: nat,
    f2: nat,
)
    requires
        forall|k: Seq<char>| #[trigger] classes.contains_key(k) ==> classes[k].name == k,
        classes.contains_key(c),
        chain_ok(classes, c, f1),
        subclass_within(classes, b, c, f1),
        subclass_within(classes, a, b, f2),
    ensures
        subclass_within(classes, a, c, f1 + f2),
    decreases f1,
{
    if classes[c].name == b {
        assert(b == c);
        lemma_subclass_within_more_fuel(classes, a, c, f2, f1 + f2);
    } else if classes[c].name != a {
        let p = parent_name(classes[c])->0;
        assert(classes[c].parent == Some(TypeModel::Class(p)));
        assert(chain_ok(classes, p, (f1 - 1) as nat));
        lemma_subclass_within_trans(classes, a, b, p, (f1 - 1) as nat, f2);
        assert((f1 - 1) as nat + f2 == (f1 + f2 - 1) as nat);
    }
}

/// Every class is a subclass of itself.
pub proof fn lemma_subclass_reflexive(classes: Map<Seq<char>, ClassModel>, c: Seq<char>)
    requires
        hierarchy_ok(classes),
        classes.contains_key(c),
    ensures
        is_subclass(classes, c, c),
{
}

/// A subclass of a subclass of a class is a subclass of that class.
pub proof fn lemma_subclass_transitive(classes: Map<Seq<char>, ClassModel>, a: Seq<char>, b: Seq<char>, c: Seq<char>)
    requires
        hierarchy_ok(classes),
        classes.contains_key(b),
        classes.contains_key(c),
        is_subclass(classes, a, b),
        is_subclass(classes, b, c),
    ensures
        is_subclass(classes, a, c),
{
    let fb = chain_fuel(classes, b);
    let fc = chain_fuel(classes, c);
    assert(chain_ok(classes, b, fb));
    assert(chain_ok(classes, c, fc));
    lemma_subclass_within_trans(classes, a, b, c, fc, fb);
    lemma_subclass_within_settled(classes, a, c, fc, fc + fb);
}

/// Every class that type `t` names is defined.
pub open spec fn classes_defined(classes: Map<Seq<char>, ClassModel>, t: TypeModel) -> bool
    decreases t,
{
    match t {
        TypeModel::Class(n) => classes.contains_key(n),
        TypeModel::Array(sub) => classes_defined(classes, *sub),
        _ => true,
    }
}

/// An array may stand where an array is expected exactly where its elements may: class
/// elements where the given class is a subclass of the expected one, array elements where
/// those arrays are compatible, and any other elements only where they are the same type (so
/// `boolean[]` is no `int[]`, and an array of `null` is no array of anything else).
pub proof fn lemma_array_compatible(classes: Map<Seq<char>, ClassModel>, l: TypeModel, r: TypeModel)
    ensures
        compatible(classes, TypeModel::Array(Box::new(l)), TypeModel::Array(Box::new(r))) <==> match (l, r) {
            (TypeModel::Class(a), TypeModel::Class(b)) => is_subclass(classes, a, b),
            (TypeModel::Array(_), TypeModel::Array(_)) => compatible(classes, l, r),
            _ => l == r,
        },
{
    reveal_with_fuel(arrays_compat, 3);
    let al = TypeModel::Array(Box::new(l));
    let ar = TypeModel::Array(Box::new(r));
    assert(arrays_compat(classes, al, ar) == arrays_compat(classes, l, r));
    match (l, r) {
        (TypeModel::Array(a), TypeModel::Array(b)) => {
            assert(arrays_compat(classes, l, r) == arrays_compat(classes, *a, *b));
        },
        _ => {},
    }
}

/// A value of a type may stand where the same type is expected.
pub proof fn lemma_compatible_reflexive(classes: Map<Seq<char>, ClassModel>, t: TypeModel)
    requires
        hierarchy_ok(classes),
        classes_defined(classes, t),
    ensures
        compatible(classes, t, t),
{
    lemma_arrays_compat_reflexive(classes, t);
}

proof fn lemma_arrays_compat_reflexive(classes: Map<Seq<char>, ClassModel>, t: TypeModel)
    requires
        hierarchy_ok(classes),
        classes_defined(classes, t),
    ensures
        arrays_compat(classes, t, t).0,
    decreases t,
{
    match t {
        TypeModel::Array(sub) => lemma_arrays_compat_reflexive(classes, *sub),
        TypeModel::Class(n) => lemma_subclass_reflexive(classes, n),
        _ => {},
    }
}

} // verus!
