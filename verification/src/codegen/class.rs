use vstd::prelude::*;
use crate::model::ast;
use crate::model::ir;
use crate::model::ir::{
    Type, TypeModel, format_method_name, get_class_vtable_type, method_args_model,
    method_name_model, spec_from_ast, types_view, vtable_type_model,
};
use crate::name_map::NameMap;

verus! {

/// The size in bytes of a value of a primitive type, pointers being 64 bits wide.
pub open spec fn size_of_primitive(t: TypeModel) -> int {
    match t {
        TypeModel::Int => 4,
        TypeModel::Bool => 1,
        TypeModel::Char => 1,
        TypeModel::Ptr(_) => 8,
        _ => 0,
    }
}

/// Whether a type has a size of its own: not `void` and not a bare struct.
pub open spec fn is_primitive(t: TypeModel) -> bool {
    t is Int || t is Bool || t is Char || t is Ptr
}

/// The size in bytes of a value of a primitive type.
pub fn get_size_of_primitive(type_: &ir::Type) -> (res: i32)
    requires
        is_primitive(type_@),
    ensures
        res == size_of_primitive(type_@),
{
    match type_ {
        Type::Int => 4,
        Type::Bool => 1,
        Type::Char => 1,
        Type::Ptr(_) => 8,
        Type::Void => 0,
        Type::Struct(_) => 0,
    }
}

/// One slot of a virtual table: return type, parameter types and the method's full name.
pub type VtableEntryModel = (TypeModel, Seq<TypeModel>, Seq<char>);

/// The layout of a class: its fields' types (the virtual table pointer first), where each
/// named field lies, its virtual table, and where each method's slot lies.
pub struct LayoutModel {
    pub fields: Seq<TypeModel>,
    pub field_index: Map<Seq<char>, int>,
    pub vtable: Seq<VtableEntryModel>,
    pub method_index: Map<Seq<char>, int>,
}

pub open spec fn empty_layout() -> LayoutModel {
    LayoutModel {
        fields: Seq::empty(),
        field_index: Map::empty(),
        vtable: Seq::empty(),
        method_index: Map::empty(),
    }
}

/// The virtual table slot of a method defined in class `cls`.
pub open spec fn vtable_entry(cls: Seq<char>, f: ast::FunDef) -> VtableEntryModel {
    (spec_from_ast(f.ret_type.inner@), method_args_model(cls, f), method_name_model(cls, f.name.inner@))
}

/// The layout after one member of class `cls`: a field goes after all others; a method
/// takes the slot of the method of the same name if there is one, else a new slot at the end.
pub open spec fn add_item(cls: Seq<char>, l: LayoutModel, item: ast::InnerClassItemDef) -> LayoutModel {
    match item {
        ast::InnerClassItemDef::Field(t, n) => LayoutModel {
            fields: l.fields.push(spec_from_ast(t.inner@)),
            field_index: l.field_index.insert(n.inner@, l.fields.len() as int),
            ..l
        },
        ast::InnerClassItemDef::Method(f) => if l.method_index.contains_key(f.name.inner@) {
            LayoutModel {
                vtable: l.vtable.update(l.method_index[f.name.inner@], vtable_entry(cls, f)),
                ..l
            }
        } else {
            LayoutModel {
                vtable: l.vtable.push(vtable_entry(cls, f)),
                method_index: l.method_index.insert(f.name.inner@, l.vtable.len() as int),
                ..l
            }
        },
        ast::InnerClassItemDef::Error => l,
    }
}

/// The layout after the members `items` of class `cls`, in order.
pub open spec fn add_items(cls: Seq<char>, l: LayoutModel, items: Seq<ast::ClassItemDef>) -> LayoutModel
    decreases items.len(),
{
    if items.len() == 0 {
        l
    } else {
        add_item(cls, add_items(cls, l, items.drop_last()), items.last().inner)
    }
}

/// The layout a class starts from: its parent's (or an empty one), with the first field
/// being a pointer to the class's own virtual table.
pub open spec fn start_layout(cls: Seq<char>, parent: Option<LayoutModel>) -> LayoutModel {
    let base = match parent {
        Some(p) => p,
        None => empty_layout(),
    };
    LayoutModel {
        fields: if base.fields.len() == 0 {
            seq![vtable_type_model(cls)]
        } else {
            base.fields.update(0, vtable_type_model(cls))
        },
        ..base
    }
}

/// The layout of a class whose parent has layout `parent`.
pub open spec fn class_layout(cl: ast::ClassDef, parent: Option<LayoutModel>) -> LayoutModel {
    add_items(cl.name.inner@, start_layout(cl.name.inner@, parent), cl.items@)
}

/// A layout whose indices all point into its field list and virtual table.
pub open spec fn layout_wf(l: LayoutModel) -> bool {
    &&& l.fields.len() >= 1
    &&& forall|k: Seq<char>| #[trigger] l.field_index.contains_key(k)
            ==> 1 <= l.field_index[k] < l.fields.len()
    &&& forall|k: Seq<char>| #[trigger] l.method_index.contains_key(k)
            ==> 0 <= l.method_index[k] < l.vtable.len()
    &&& forall|k1: Seq<char>, k2: Seq<char>|
            #[trigger] l.method_index.contains_key(k1) && #[trigger] l.method_index.contains_key(k2)
            && k1 != k2 ==> l.method_index[k1] != l.method_index[k2]
}

pub open spec fn entry_view(e: (Type, Vec<Type>, String)) -> VtableEntryModel {
    (e.0@, types_view(e.1@), e.2@)
}

pub open spec fn index_view(m: Map<Seq<char>, usize>) -> Map<Seq<char>, int> {
    m.map_values(|u: usize| u as int)
}

/// What the code generator knows of a class: where each field and each method lies, and the
/// class's layout in the IR.
pub struct ClassDescription {
    fields: NameMap<usize>,
    methods: NameMap<usize>,
    class: ir::Struct,
}

impl ClassDescription {
    /// The class's layout.
    pub closed spec fn layout(&self) -> LayoutModel {
        LayoutModel {
            fields: types_view(self.class.fields@),
            field_index: index_view(self.fields@),
            vtable: self.class.vtable@.map_values(|e: (Type, Vec<Type>, String)| entry_view(e)),
            method_index: index_view(self.methods@),
        }
    }

    /// The class's name.
    pub closed spec fn name(&self) -> Seq<char> {
        self.class.name@
    }

    pub closed spec fn wf(&self) -> bool {
        &&& self.fields.wf()
        &&& self.methods.wf()
        &&& forall|k: Seq<char>| #[trigger] self.methods@.contains_key(k)
                ==> self.methods@[k] < self.class.vtable@.len()
    }

    /// A class without a parent, before its members are added.
    fn new(name: &str) -> (res: ClassDescription)
        ensures
            res.wf(),
            res.name() == name@,
            res.layout() == empty_layout(),
    {
        let res = ClassDescription {
            fields: NameMap::new(),
            methods: NameMap::new(),
            class: ir::Struct { name: name.to_owned(), fields: Vec::new(), vtable: Vec::new() },
        };
        assert(res.layout().fields =~= Seq::<TypeModel>::empty());
        assert(res.layout().vtable =~= Seq::<VtableEntryModel>::empty());
        assert(res.layout().field_index =~= Map::<Seq<char>, int>::empty());
        assert(res.layout().method_index =~= Map::<Seq<char>, int>::empty());
        res
    }

    /// A subclass of `parent_cl_desc`, before its own members are added: it starts from a
    /// copy of its parent's layout.
    fn new_subclass(name: &str, parent_cl_desc: &ClassDescription) -> (res: ClassDescription)
        requires
            parent_cl_desc.wf(),
        ensures
            res.wf(),
            res.name() == name@,
            res.layout() == parent_cl_desc.layout(),
    {
        let fields = parent_cl_desc.fields.copy();
        let methods = parent_cl_desc.methods.copy();
        let mut field_types: Vec<Type> = Vec::new();
        let mut i: usize = 0;
        while i < parent_cl_desc.class.fields.len()
            invariant
                i <= parent_cl_desc.class.fields@.len(),
                field_types@.len() == i,
                forall|j: int| 0 <= j < i ==> (#[trigger] field_types@[j])@ == parent_cl_desc.class.fields@[j]@,
            decreases parent_cl_desc.class.fields@.len() - i,
        {
            field_types.push(parent_cl_desc.class.fields[i].clone());
            i = i + 1;
        }
        let mut vtable: Vec<(Type, Vec<Type>, String)> = Vec::new();
        let mut i: usize = 0;
        while i < parent_cl_desc.class.vtable.len()
            invariant
                i <= parent_cl_desc.class.vtable@.len(),
                vtable@.len() == i,
                forall|j: int| 0 <= j < i ==> entry_view(#[trigger] vtable@[j]) == entry_view(parent_cl_desc.class.vtable@[j]),
            decreases parent_cl_desc.class.vtable@.len() - i,
        {
            let e = &parent_cl_desc.class.vtable[i];
            vtable.push((e.0.clone(), clone_types(&e.1), e.2.clone()));
            i = i + 1;
        }
        let res = ClassDescription {
            fields,
            methods,
            class: ir::Struct { name: name.to_owned(), fields: field_types, vtable },
        };
        assert(res.layout().fields =~= parent_cl_desc.layout().fields);
        assert(res.layout().vtable =~= parent_cl_desc.layout().vtable);
        assert(res.layout().field_index =~= parent_cl_desc.layout().field_index);
        assert(res.layout().method_index =~= parent_cl_desc.layout().method_index);
        res
    }

    /// The class's layout in the IR.
    fn get_class_ir(self) -> (res: ir::Struct)
        ensures
            res.name@ == self.name(),
            types_view(res.fields@) == self.layout().fields,
            res.vtable@.map_values(|e: (Type, Vec<Type>, String)| entry_view(e)) == self.layout().vtable,
    {
        self.class
    }
}

/// A copy of a list of types.
fn clone_types(ts: &Vec<Type>) -> (res: Vec<Type>)
    ensures
        types_view(res@) == types_view(ts@),
{
    let mut res: Vec<Type> = Vec::new();
    let mut i: usize = 0;
    while i < ts.len()
        invariant
            i <= ts@.len(),
            res@.len() == i,
            forall|j: int| 0 <= j < i ==> (#[trigger] res@[j])@ == ts@[j]@,
        decreases ts@.len() - i,
    {
        res.push(ts[i].clone());
        i = i + 1;
    }
    assert(types_view(res@) =~= types_view(ts@));
    res
}


impl ClassDescription {
    /// Makes the first field a pointer to the virtual table of class `cls`.
    fn set_vtable_field(&mut self, cls: &str)
        requires
            old(self).wf(),
        ensures
            final(self).wf(),
            final(self).name() == old(self).name(),
            final(self).layout() == start_layout(cls@, Some(old(self).layout())),
    {
        let vtable_type = get_class_vtable_type(cls);
        let ghost old_fields = self.class.fields@;
        if self.class.fields.len() == 0 {
            self.class.fields.push(vtable_type);
        } else {
            self.class.fields.set(0, vtable_type);
        }
        proof {
            let l = start_layout(cls@, Some(old(self).layout()));
            assert(self.layout().fields =~= l.fields);
            assert(self.layout().vtable =~= l.vtable);
        }
    }

    /// Adds a member of class `cls`.
    fn add_item(&mut self, cls: &str, item: &ast::InnerClassItemDef)
        requires
            old(self).wf(),
            !(item is Error),
        ensures
            final(self).wf(),
            final(self).name() == old(self).name(),
            final(self).layout() == add_item(cls@, old(self).layout(), *item),
    {
        match item {
            ast::InnerClassItemDef::Field(f_type, f_name) => {
                let ir_type = Type::from_ast(&f_type.inner);
                let new_idx = self.class.fields.len();
                self.class.fields.push(ir_type);
                self.fields.insert(f_name.inner.clone(), new_idx);
                proof {
                    let l = add_item(cls@, old(self).layout(), *item);
                    assert(self.layout().fields =~= l.fields);
                    assert(self.layout().field_index =~= l.field_index);
                    assert(self.layout().vtable =~= l.vtable);
                    assert(self.layout().method_index =~= l.method_index);
                }
            },
            ast::InnerClassItemDef::Method(fun) => {
                let (fun_ret, fun_args) = Type::from_method_def(cls, fun);
                let fun_name = format_method_name(cls, fun.name.inner.as_str());
                let ghost entry = vtable_entry(cls@, *fun);
                assert(entry_view((fun_ret, fun_args, fun_name)) == entry);
                match self.methods.get(fun.name.inner.as_str()) {
                    Some(idx) => {
                        let idx = *idx;
                        self.class.vtable.set(idx, (fun_ret, fun_args, fun_name));
                        proof {
                            let l = add_item(cls@, old(self).layout(), *item);
                            assert(self.layout().fields =~= l.fields);
                            assert(self.layout().vtable =~= l.vtable);
                        }
                    },
                    None => {
                        let new_idx = self.class.vtable.len();
                        self.class.vtable.push((fun_ret, fun_args, fun_name));
                        self.methods.insert(fun.name.inner.clone(), new_idx);
                        proof {
                            let l = add_item(cls@, old(self).layout(), *item);
                            assert(self.layout().fields =~= l.fields);
                            assert(self.layout().vtable =~= l.vtable);
                            assert(self.layout().method_index =~= l.method_index);
                        }
                    },
                }
            },
            ast::InnerClassItemDef::Error => {},
        }
    }
}

/// The layouts of the classes processed so far.
pub struct ClassRegistry {
    classes: NameMap<ClassDescription>,
}

/// Whether a class definition can be laid out: its members are all well formed, and its
/// parent, if it has one, is a class whose layout is known.
pub open spec fn class_def_ready(cl: ast::ClassDef, known: Map<Seq<char>, LayoutModel>) -> bool {
    &&& forall|i: int| 0 <= i < cl.items@.len() ==> !((#[trigger] cl.items@[i]).inner is Error)
    &&& match cl.parent_type {
        None => true,
        Some(t) => match t.inner@ {
            ast::TypeModel::Class(p) => known.contains_key(p),
            _ => false,
        },
    }
}

/// The layout of the parent of `cl`, among the known ones.
pub open spec fn parent_layout(cl: ast::ClassDef, known: Map<Seq<char>, LayoutModel>) -> Option<LayoutModel> {
    match cl.parent_type {
        Some(t) => match t.inner@ {
            ast::TypeModel::Class(p) => Some(known[p]),
            _ => None,
        },
        None => None,
    }
}

impl ClassRegistry {
    /// The layout of each class processed so far, by name.
    pub closed spec fn layouts(&self) -> Map<Seq<char>, LayoutModel> {
        self.classes@.map_values(|c: ClassDescription| c.layout())
    }

    /// The names of the classes processed so far, in the order in which they were first seen.
    pub closed spec fn names(&self) -> Seq<Seq<char>> {
        self.classes.entries().map_values(|e: (String, ClassDescription)| e.0@)
    }

    pub closed spec fn wf(&self) -> bool {
        &&& self.classes.wf()
        &&& forall|k: Seq<char>| #[trigger] self.classes@.contains_key(k) ==> self.classes@[k].wf()
                && self.classes@[k].name() == k
    }

    /// A registry that knows no class.
    pub fn new() -> (res: ClassRegistry)
        ensures
            res.wf(),
            res.layouts() == Map::<Seq<char>, LayoutModel>::empty(),
            res.names().len() == 0,
    {
        let res = ClassRegistry { classes: NameMap::new() };
        assert(res.layouts() =~= Map::<Seq<char>, LayoutModel>::empty());
        res
    }

    /// Lays out a class: it starts from its parent's layout, points its first field at its own
    /// virtual table, and adds its members in order.
    pub fn process_class_def(&mut self, cl: &ast::ClassDef)
        requires
            old(self).wf(),
            class_def_ready(*cl, old(self).layouts()),
        ensures
            final(self).wf(),
            final(self).layouts() == old(self).layouts().insert(
                cl.name.inner@,
                class_layout(*cl, parent_layout(*cl, old(self).layouts())),
            ),
            old(self).layouts().contains_key(cl.name.inner@) ==> final(self).names() == old(self).names(),
            !old(self).layouts().contains_key(cl.name.inner@) ==> final(self).names() == old(self).names().push(cl.name.inner@),
    {
        proof {
            self.classes.lemma_view();
        }
        let cls = cl.name.inner.as_str();
        let mut cl_desc = match &cl.parent_type {
            Some(cl_type) => match &cl_type.inner {
                ast::InnerType::Class(parent_cl_name) => {
                    let parent = self.classes.get(parent_cl_name.as_str());
                    match parent {
                        Some(p) => ClassDescription::new_subclass(cls, p),
                        None => ClassDescription::new(cls),
                    }
                },
                _ => ClassDescription::new(cls),
            },
            None => ClassDescription::new(cls),
        };
        proof {
            match parent_layout(*cl, old(self).layouts()) {
                Some(p) => assert(cl_desc.layout() == p),
                None => assert(cl_desc.layout() == empty_layout()),
            }
        }
        let ghost start = cl_desc.layout();
        cl_desc.set_vtable_field(cls);
        assert(cl_desc.layout() == start_layout(cl.name.inner@, parent_layout(*cl, old(self).layouts())));
        let mut i: usize = 0;
        while i < cl.items.len()
            invariant
                i <= cl.items@.len(),
                cl_desc.wf(),
                cl_desc.name() == cl.name.inner@,
                cls@ == cl.name.inner@,
                forall|j: int| 0 <= j < cl.items@.len() ==> !((#[trigger] cl.items@[j]).inner is Error),
                cl_desc.layout() == add_items(
                    cl.name.inner@,
                    start_layout(cl.name.inner@, parent_layout(*cl, old(self).layouts())),
                    cl.items@.take(i as int),
                ),
            decreases cl.items@.len() - i,
        {
            let ghost before = cl_desc.layout();
            cl_desc.add_item(cls, &cl.items[i].inner);
            proof {
                assert(cl.items@.take(i + 1).drop_last() =~= cl.items@.take(i as int));
            }
            i = i + 1;
        }
        assert(cl.items@.take(cl.items@.len() as int) =~= cl.items@);
        let ghost layout = cl_desc.layout();
        let ghost old_map = self.classes@;
        self.classes.insert(cl.name.inner.clone(), cl_desc);
        proof {
            self.classes.lemma_view();
            old(self).classes.lemma_view();
            assert(self.layouts() =~= old(self).layouts().insert(cl.name.inner@, layout));
            if old(self).layouts().contains_key(cl.name.inner@) {
                assert(self.names() =~= old(self).names());
            } else {
                assert(self.names() =~= old(self).names().push(cl.name.inner@));
            }
        }
    }
}


/// The IR form of a layout's virtual table.
pub open spec fn vtable_view(v: Seq<(Type, Vec<Type>, String)>) -> Seq<VtableEntryModel> {
    v.map_values(|e: (Type, Vec<Type>, String)| entry_view(e))
}

/// Whether `s` is the IR struct of class `name` with layout `l`.
pub open spec fn struct_matches(s: ir::Struct, name: Seq<char>, l: LayoutModel) -> bool {
    &&& s.name@ == name
    &&& types_view(s.fields@) == l.fields
    &&& vtable_view(s.vtable@) == l.vtable
}

impl ClassRegistry {
    /// Appends the IR struct of every class, in the order in which the classes were first seen.
    pub fn insert_classes_ir_into(self, program: &mut ir::Program)
        requires
            self.wf(),
        ensures
            final(program).functions@ == old(program).functions@,
            final(program).global_strings == old(program).global_strings,
            final(program).structs@.len() == old(program).structs@.len() + self.names().len(),
            forall|i: int| 0 <= i < old(program).structs@.len()
                ==> #[trigger] final(program).structs@[i] == old(program).structs@[i],
            forall|i: int| 0 <= i < self.names().len() ==> struct_matches(
                #[trigger] final(program).structs@[old(program).structs@.len() + i],
                self.names()[i],
                self.layouts()[self.names()[i]],
            ),
    {
        proof {
            self.classes.lemma_view();
        }
        let ghost names = self.names();
        let ghost layouts = self.layouts();
        let ghost start = program.structs@.len();
        let ghost all = self.classes.entries();
        let mut entries = self.classes.into_entries();
        let n = entries.len();
        let mut i: usize = 0;
        while i < n
            invariant
                n == all.len(),
                i <= n,
                entries@ == all.skip(i as int),
                names.len() == n,
                forall|j: int| 0 <= j < n ==> #[trigger] names[j] == all[j].0@,
                forall|j: int| 0 <= j < n ==> layouts[names[j]] == (#[trigger] all[j]).1.layout()
                    && all[j].1.name() == names[j],
                program.functions@ == old(program).functions@,
                program.global_strings == old(program).global_strings,
                program.structs@.len() == start + i,
                start == old(program).structs@.len(),
                forall|j: int| 0 <= j < start ==> #[trigger] program.structs@[j] == old(program).structs@[j],
                forall|j: int| 0 <= j < i ==> struct_matches(
                    #[trigger] program.structs@[start + j],
                    names[j],
                    layouts[names[j]],
                ),
            decreases n - i,
        {
            let (_, cl) = entries.remove(0);
            assert(cl == all[i as int].1);
            let st = cl.get_class_ir();
            program.structs.push(st);
            proof {
                assert(entries@ =~= all.skip(i + 1));
            }
            i = i + 1;
        }
    }
}


pub open spec fn item_is_field(item: ast::InnerClassItemDef, k: Seq<char>) -> bool {
    match item {
        ast::InnerClassItemDef::Field(_, n) => n.inner@ == k,
        _ => false,
    }
}

pub open spec fn item_is_method(item: ast::InnerClassItemDef, k: Seq<char>) -> bool {
    match item {
        ast::InnerClassItemDef::Method(f) => f.name.inner@ == k,
        _ => false,
    }
}

/// Whether one of `items` declares a field called `k`.
pub open spec fn declares_field(items: Seq<ast::ClassItemDef>, k: Seq<char>) -> bool {
    exists|i: int| 0 <= i < items.len() && item_is_field((#[trigger] items[i]).inner, k)
}

/// Whether one of `items` declares a method called `k`.
pub open spec fn declares_method(items: Seq<ast::ClassItemDef>, k: Seq<char>) -> bool {
    exists|i: int| 0 <= i < items.len() && item_is_method((#[trigger] items[i]).inner, k)
}

/// Adding members keeps every field where it was, every method in its slot, and every slot
/// that no new member overrides.
proof fn lemma_add_items_keeps(cls: Seq<char>, l: LayoutModel, items: Seq<ast::ClassItemDef>)
    requires
        layout_wf(l),
    ensures
        layout_wf(add_items(cls, l, items)),
        add_items(cls, l, items).fields.len() >= l.fields.len(),
        forall|i: int| 0 <= i < l.fields.len() ==> #[trigger] add_items(cls, l, items).fields[i] == l.fields[i],
        forall|k: Seq<char>| #[trigger] l.field_index.contains_key(k) && !declares_field(items, k)
            ==> add_items(cls, l, items).field_index.contains_key(k)
                && add_items(cls, l, items).field_index[k] == l.field_index[k],
        add_items(cls, l, items).vtable.len() >= l.vtable.len(),
        forall|k: Seq<char>| #[trigger] l.method_index.contains_key(k)
            ==> add_items(cls, l, items).method_index.contains_key(k)
                && add_items(cls, l, items).method_index[k] == l.method_index[k],
        forall|k: Seq<char>| #[trigger] l.method_index.contains_key(k) && !declares_method(items, k)
            ==> add_items(cls, l, items).vtable[l.method_index[k]] == l.vtable[l.method_index[k]],
    decreases items.len(),
{
    if items.len() > 0 {
        let prefix = items.drop_last();
        lemma_add_items_keeps(cls, l, prefix);
        let m = add_items(cls, l, prefix);
        let r = add_items(cls, l, items);
        assert(r == add_item(cls, m, items.last().inner));
        assert forall|k: Seq<char>| #[trigger] l.field_index.contains_key(k) && !declares_field(items, k)
            implies r.field_index.contains_key(k) && r.field_index[k] == l.field_index[k] by {
            if declares_field(prefix, k) {
                let i = choose|i: int| 0 <= i < prefix.len() && item_is_field((#[trigger] prefix[i]).inner, k);
                assert(items[i] == prefix[i]);
            }
            if item_is_field(items.last().inner, k) {
                assert(items[items.len() - 1] == items.last());
            }
        }
        assert forall|k: Seq<char>| #[trigger] l.method_index.contains_key(k) && !declares_method(items, k)
            implies r.vtable[l.method_index[k]] == l.vtable[l.method_index[k]] by {
            if declares_method(prefix, k) {
                let i = choose|i: int| 0 <= i < prefix.len() && item_is_method((#[trigger] prefix[i]).inner, k);
                assert(items[i] == prefix[i]);
            }
            if item_is_method(items.last().inner, k) {
                assert(items[items.len() - 1] == items.last());
            }
            match items.last().inner {
                ast::InnerClassItemDef::Method(f) => {
                    if m.method_index.contains_key(f.name.inner@) {
                        assert(m.method_index[f.name.inner@] != m.method_index[k]) by {
                            if f.name.inner@ != k {
                            } else {
                                assert(items[items.len() - 1] == items.last());
                            }
                        }
                    }
                },
                _ => {},
            }
        }
        assert forall|k: Seq<char>| #[trigger] r.method_index.contains_key(k)
            implies 0 <= r.method_index[k] < r.vtable.len() by {
        }
        assert forall|k: Seq<char>| #[trigger] r.field_index.contains_key(k)
            implies 1 <= r.field_index[k] < r.fields.len() by {
        }
        assert forall|k1: Seq<char>, k2: Seq<char>|
            #[trigger] r.method_index.contains_key(k1) && #[trigger] r.method_index.contains_key(k2)
            && k1 != k2 implies r.method_index[k1] != r.method_index[k2] by {
            if m.method_index.contains_key(k1) && m.method_index.contains_key(k2) {
            }
        }
    }
}

/// A subclass's layout extends its parent's: the first field points at the subclass's own
/// virtual table, every other field of the parent keeps its position and type, every method of
/// the parent keeps its slot, and a slot keeps the parent's method unless the subclass
/// overrides it.
pub proof fn lemma_subclass_layout_extends_parent(cl: ast::ClassDef, parent: LayoutModel)
    requires
        layout_wf(parent),
    ensures
        layout_wf(class_layout(cl, Some(parent))),
        class_layout(cl, Some(parent)).fields.len() >= parent.fields.len(),
        class_layout(cl, Some(parent)).fields[0] == vtable_type_model(cl.name.inner@),
        forall|i: int| 1 <= i < parent.fields.len()
            ==> #[trigger] class_layout(cl, Some(parent)).fields[i] == parent.fields[i],
        forall|k: Seq<char>| #[trigger] parent.field_index.contains_key(k) && !declares_field(cl.items@, k)
            ==> class_layout(cl, Some(parent)).field_index.contains_key(k)
                && class_layout(cl, Some(parent)).field_index[k] == parent.field_index[k],
        class_layout(cl, Some(parent)).vtable.len() >= parent.vtable.len(),
        forall|k: Seq<char>| #[trigger] parent.method_index.contains_key(k)
            ==> class_layout(cl, Some(parent)).method_index.contains_key(k)
                && class_layout(cl, Some(parent)).method_index[k] == parent.method_index[k],
        forall|k: Seq<char>| #[trigger] parent.method_index.contains_key(k) && !declares_method(cl.items@, k)
            ==> class_layout(cl, Some(parent)).vtable[parent.method_index[k]]
                == parent.vtable[parent.method_index[k]],
{
    let s = start_layout(cl.name.inner@, Some(parent));
    assert(s.field_index == parent.field_index);
    assert(s.method_index == parent.method_index);
    assert(s.vtable == parent.vtable);
    assert(layout_wf(s));
    lemma_add_items_keeps(cl.name.inner@, s, cl.items@);
    assert(s.fields[0] == vtable_type_model(cl.name.inner@));
}


impl ClassRegistry {
    /// The names in order are those with a layout, each once.
    pub proof fn lemma_names(&self)
        requires
            self.wf(),
        ensures
            self.names().no_duplicates(),
            self.names().len() == self.layouts().dom().len(),
            forall|k: Seq<char>| #[trigger] self.layouts().contains_key(k) <==> self.names().contains(k),
    {
        self.classes.lemma_view();
        let names = self.names();
        assert forall|a: int, b: int| 0 <= a < names.len() && 0 <= b < names.len() && a != b implies names[a] != names[b] by {
            assert(self.classes.entries()[a].0@ != self.classes.entries()[b].0@);
        }
        assert forall|k: Seq<char>| #[trigger] self.layouts().contains_key(k) <==> names.contains(k) by {
            if self.layouts().contains_key(k) {
                let i = choose|i: int| 0 <= i < self.classes.entries().len() && self.classes.entries()[i].0@ == k;
                assert(names[i] == k);
            }
            if names.contains(k) {
                let i = choose|i: int| 0 <= i < names.len() && names[i] == k;
                assert(self.classes.entries()[i].0@ == k);
            }
        }
        assert(self.layouts().dom() == self.classes@.dom());
    }
}

} // verus!
