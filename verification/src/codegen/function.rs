use vstd::prelude::*;
use crate::model::ast;
use crate::model::ir;
use crate::model::ir::{Label, RegNum, GlobalStrNum, Type, Value, spec_from_ast, spec_value_type, value_eq};
use crate::name_map::NameMap;
use crate::semantics::global_context::{ClassDesc, FunModel, GlobalContext};
use crate::model::ir::TypeModel;

verus! {

/// The number of the label of the frame that holds a function's parameters.
pub const ARGS_LABEL_NO: u32 = 4294967295u32;

/// The number of the label that stands for "control never gets here".
pub const UNREACHABLE_LABEL_NO: u32 = 4294967294u32;

/// The variables declared in one basic block, and the frame it continues.
pub struct EnvFrame {
    pub parent: Option<Label>,
    pub locals: NameMap<Value>,
}

/// The current value of each variable, kept per basic block: a block sees its own frame and
/// those of its ancestors.
pub struct Env<'a> {
    global_ctx: &'a GlobalContext,
    class_ctx: Option<&'a ClassDesc>,
    args: EnvFrame,
    frames: Vec<EnvFrame>,
}

/// What the code generator needs to know of a called function.
pub struct FunctionInfoWrapper {
    pub ret_type: Type,
    pub is_class_method: bool,
}

/// A measure that decreases from a frame to its parent.
pub open spec fn chain_measure(l: Label) -> int {
    if l.0 == ARGS_LABEL_NO {
        0
    } else {
        l.0 as int + 1
    }
}

impl<'a> Env<'a> {
    /// The number of block frames.
    pub closed spec fn frame_count(&self) -> nat {
        self.frames@.len()
    }

    /// Whether `l` names a frame: the parameters' or a block's.
    pub open spec fn valid_frame(&self, l: Label) -> bool {
        l.0 == ARGS_LABEL_NO || (l.0 as int) < self.frame_count()
    }

    /// The variables that frame `l` declares, with their current values.
    pub closed spec fn frame_locals(&self, l: Label) -> Map<Seq<char>, Value> {
        if l.0 == ARGS_LABEL_NO {
            self.args.locals@
        } else {
            self.frames@[l.0 as int].locals@
        }
    }

    /// The frame that frame `l` continues.
    pub closed spec fn frame_parent(&self, l: Label) -> Option<Label> {
        if l.0 == ARGS_LABEL_NO {
            self.args.parent
        } else {
            self.frames@[l.0 as int].parent
        }
    }

    pub closed spec fn global_context(&self) -> &'a GlobalContext {
        self.global_ctx
    }

    pub closed spec fn class_context(&self) -> Option<&'a ClassDesc> {
        self.class_ctx
    }

    pub closed spec fn wf(&self) -> bool {
        &&& self.args.parent is None
        &&& self.args.locals.wf()
        &&& self.frames@.len() < UNREACHABLE_LABEL_NO
        &&& forall|i: int| 0 <= i < self.frames@.len() ==> (#[trigger] self.frames@[i]).locals.wf()
        &&& forall|i: int| 0 <= i < self.frames@.len() ==> match (#[trigger] self.frames@[i]).parent {
                Some(p) => p.0 == ARGS_LABEL_NO || (p.0 as int) < i,
                None => false,
            }
    }

    /// The frame, on the way from frame `l` to the parameters' frame, that declares `name`.
    pub open spec fn defining_frame(&self, l: Label, name: Seq<char>) -> Option<Label>
        decreases chain_measure(l),
    {
        if !self.valid_frame(l) {
            None
        } else if self.frame_locals(l).contains_key(name) {
            Some(l)
        } else {
            match self.frame_parent(l) {
                Some(p) => if chain_measure(p) < chain_measure(l) {
                    self.defining_frame(p, name)
                } else {
                    None
                },
                None => None,
            }
        }
    }

    /// The value of variable `name` as seen from the block of frame `l`.
    pub open spec fn lookup(&self, l: Label, name: Seq<char>) -> Option<Value> {
        match self.defining_frame(l, name) {
            Some(d) => Some(self.frame_locals(d)[name]),
            None => None,
        }
    }

    /// An environment with the parameters' frame only.
    pub fn new(gctx: &'a GlobalContext, cctx: Option<&'a ClassDesc>) -> (res: Env<'a>)
        ensures
            res.wf(),
            res.frame_count() == 0,
            res.frame_locals(Label(ARGS_LABEL_NO)) == Map::<Seq<char>, Value>::empty(),
            res.frame_parent(Label(ARGS_LABEL_NO)) is None,
            res.global_context() == gctx,
            res.class_context() == cctx,
    {
        Env {
            global_ctx: gctx,
            class_ctx: cctx,
            args: EnvFrame { parent: None, locals: NameMap::new() },
            frames: Vec::new(),
        }
    }

    /// Adds the empty frame of block `label`, which continues frame `parent_label`.
    pub fn allocate_new_frame(&mut self, label: Label, parent_label: Label)
        requires
            old(self).wf(),
            label.0 == old(self).frame_count(),
            old(self).frame_count() + 1 < UNREACHABLE_LABEL_NO,
            old(self).valid_frame(parent_label),
        ensures
            final(self).wf(),
            final(self).frame_count() == old(self).frame_count() + 1,
            final(self).frame_locals(label) == Map::<Seq<char>, Value>::empty(),
            final(self).frame_parent(label) == Some(parent_label),
            forall|l: Label| #[trigger] old(self).valid_frame(l) ==> final(self).frame_locals(l) == old(self).frame_locals(l)
                && final(self).frame_parent(l) == old(self).frame_parent(l),
            final(self).global_context() == old(self).global_context(),
            final(self).class_context() == old(self).class_context(),
    {
        self.frames.push(EnvFrame { parent: Some(parent_label), locals: NameMap::new() });
    }

    /// Declares variable `name` in frame `frame`. Fails, changing nothing, where the frame
    /// declares that name already.
    pub fn add_new_local_variable(&mut self, frame: Label, name: &str, value: Value) -> (res: bool)
        requires
            old(self).wf(),
            old(self).valid_frame(frame),
        ensures
            final(self).wf(),
            res == !old(self).frame_locals(frame).contains_key(name@),
            res ==> final(self).lookup(frame, name@) == Some(value),
            res ==> final(self).frame_locals(frame) == old(self).frame_locals(frame).insert(name@, value),
            !res ==> final(self).frame_locals(frame) == old(self).frame_locals(frame),
            final(self).frame_count() == old(self).frame_count(),
            forall|l: Label| #[trigger] old(self).valid_frame(l) && l != frame
                ==> final(self).frame_locals(l) == old(self).frame_locals(l),
            forall|l: Label| #[trigger] old(self).valid_frame(l) ==> final(self).frame_parent(l) == old(self).frame_parent(l),
            final(self).global_context() == old(self).global_context(),
            final(self).class_context() == old(self).class_context(),
    {
        if frame.0 == ARGS_LABEL_NO {
            if self.args.locals.contains_key(name) {
                return false;
            }
            self.args.locals.insert(name.to_owned(), value);
            true
        } else {
            let i = frame.0 as usize;
            let mut f = EnvFrame { parent: None, locals: NameMap::new() };
            std::mem::swap(&mut f, &mut self.frames[i]);
            let res = if f.locals.contains_key(name) {
                false
            } else {
                f.locals.insert(name.to_owned(), value);
                true
            };
            std::mem::swap(&mut f, &mut self.frames[i]);
            res
        }
    }

    /// Gives variable `name`, as seen from frame `frame`, the value `value`: the nearest frame
    /// that declares the name is the one changed. Fails, changing nothing, where no frame on the
    /// way declares it.
    pub fn update_existing_local_variable(&mut self, frame: Label, name: &str, value: Value) -> (res: bool)
        requires
            old(self).wf(),
            old(self).valid_frame(frame),
        ensures
            final(self).wf(),
            res == old(self).defining_frame(frame, name@) is Some,
            res ==> final(self).lookup(frame, name@) == Some(value),
            forall|l: Label, n: Seq<char>| #[trigger] final(self).defining_frame(l, n) == old(self).defining_frame(l, n),
            res ==> final(self).frame_locals(old(self).defining_frame(frame, name@)->0)
                == old(self).frame_locals(old(self).defining_frame(frame, name@)->0).insert(name@, value),
            forall|l: Label| #[trigger] old(self).valid_frame(l) && (!res || l != old(self).defining_frame(frame, name@)->0)
                ==> final(self).frame_locals(l) == old(self).frame_locals(l),
            final(self).frame_count() == old(self).frame_count(),
            forall|l: Label| #[trigger] old(self).valid_frame(l) ==> final(self).frame_parent(l) == old(self).frame_parent(l),
            final(self).global_context() == old(self).global_context(),
            final(self).class_context() == old(self).class_context(),
    {
        let mut it: Option<Label> = Some(frame);
        while it.is_some()
            invariant
                self.wf(),
                *self == *old(self),
                match it {
                    Some(l) => self.valid_frame(l) && self.defining_frame(frame, name@) == self.defining_frame(l, name@),
                    None => self.defining_frame(frame, name@) is None,
                },
            decreases match it { Some(l) => chain_measure(l) + 1, None => 0 },
        {
            let l = it.unwrap();
            let found = if l.0 == ARGS_LABEL_NO {
                self.args.locals.contains_key(name)
            } else {
                self.frames[l.0 as usize].locals.contains_key(name)
            };
            if found {
                let ghost before = *self;
                let added = self.add_new_local_variable_unchecked(l, name, value);
                proof {
                    assert forall|x: Label| #[trigger] before.valid_frame(x) implies before.frame_parent(x) == self.frame_parent(x)
                        && before.frame_locals(x).dom() == self.frame_locals(x).dom() by {
                        if x == l {
                            assert(before.frame_locals(x).contains_key(name@));
                            assert(self.frame_locals(x).dom() =~= before.frame_locals(x).dom());
                        }
                    }
                    assert forall|x: Label, n: Seq<char>| #[trigger] self.defining_frame(x, n) == before.defining_frame(x, n) by {
                        lemma_same_shape_same_defining_frame(before, *self, x, n);
                    }
                }
                return true;
            }
            it = if l.0 == ARGS_LABEL_NO { self.args.parent } else { self.frames[l.0 as usize].parent };
        }
        false
    }

    /// Stores `value` under `name` in frame `frame`.
    fn add_new_local_variable_unchecked(&mut self, frame: Label, name: &str, value: Value) -> (res: bool)
        requires
            old(self).wf(),
            old(self).valid_frame(frame),
        ensures
            final(self).wf(),
            final(self).frame_locals(frame) == old(self).frame_locals(frame).insert(name@, value),
            final(self).frame_count() == old(self).frame_count(),
            forall|l: Label| #[trigger] old(self).valid_frame(l) && l != frame
                ==> final(self).frame_locals(l) == old(self).frame_locals(l),
            forall|l: Label| #[trigger] old(self).valid_frame(l) ==> final(self).frame_parent(l) == old(self).frame_parent(l),
            final(self).global_context() == old(self).global_context(),
            final(self).class_context() == old(self).class_context(),
    {
        if frame.0 == ARGS_LABEL_NO {
            self.args.locals.insert(name.to_owned(), value);
        } else {
            let i = frame.0 as usize;
            let mut f = EnvFrame { parent: None, locals: NameMap::new() };
            std::mem::swap(&mut f, &mut self.frames[i]);
            f.locals.insert(name.to_owned(), value);
            std::mem::swap(&mut f, &mut self.frames[i]);
        }
        true
    }

    /// The value of variable `name` as seen from frame `frame`, if some frame on the way
    /// declares it.
    pub fn get_variable(&self, frame: Label, name: &str) -> (res: Option<&Value>)
        requires
            self.wf(),
            self.valid_frame(frame),
        ensures
            match res {
                Some(v) => self.lookup(frame, name@) == Some(*v),
                None => self.lookup(frame, name@) is None,
            },
    {
        let mut it: Option<Label> = Some(frame);
        while it.is_some()
            invariant
                self.wf(),
                match it {
                    Some(l) => self.valid_frame(l) && self.defining_frame(frame, name@) == self.defining_frame(l, name@),
                    None => self.defining_frame(frame, name@) is None,
                },
            decreases match it { Some(l) => chain_measure(l) + 1, None => 0 },
        {
            let l = it.unwrap();
            let f = if l.0 == ARGS_LABEL_NO { &self.args } else { &self.frames[l.0 as usize] };
            match f.locals.get(name) {
                Some(v) => return Some(v),
                None => {},
            }
            it = f.parent;
        }
        None
    }
}


/// Whether some string of `v` is `n`.
pub open spec fn names_contain(v: Seq<String>, n: Seq<char>) -> bool {
    exists|j: int| 0 <= j < v.len() && (#[trigger] v[j])@ == n
}

/// No two strings of `v` are equal.
pub open spec fn names_distinct(v: Seq<String>) -> bool {
    forall|i: int, j: int| 0 <= i < v.len() && 0 <= j < v.len() && i != j ==> (#[trigger] v[i])@ != (#[trigger] v[j])@
}

/// Whether `name` is among `names`.
fn contains_name(names: &Vec<String>, name: &str) -> (res: bool)
    ensures
        res == names_contain(names@, name@),
{
    let mut i: usize = 0;
    while i < names.len()
        invariant
            i <= names@.len(),
            forall|j: int| 0 <= j < i ==> (#[trigger] names@[j])@ != name@,
        decreases names@.len() - i,
    {
        if crate::text::str_eq(names[i].as_str(), name) {
            return true;
        }
        i = i + 1;
    }
    false
}

/// Every variable of every frame holds a value that reads no register numbered `n` or more.
pub open spec fn env_below(env: Env, n: u32) -> bool {
    forall|l: Label, name: Seq<char>| env.valid_frame(l) && #[trigger] env.frame_locals(l).contains_key(name)
        ==> value_below(env.frame_locals(l)[name], n)
}

/// The value of a variable, where every frame's values read registers below `n`, reads one
/// below `n`.
proof fn lemma_lookup_below(e: Env, l: Label, name: Seq<char>, n: u32)
    requires
        env_below(e, n),
        e.lookup(l, name) is Some,
    ensures
        value_below(e.lookup(l, name)->0, n),
{
    e.lemma_defining_frame_measure(l, name);
}

/// Every variable of every frame holds a settled value.
pub open spec fn env_settled(env: Env, blocks: Seq<ir::Block>, open: Set<RegNum>) -> bool {
    forall|l: Label, name: Seq<char>| env.valid_frame(l) && #[trigger] env.frame_locals(l).contains_key(name)
        ==> value_settled(blocks, open, env.frame_locals(l)[name])
}

/// Changing the value of one variable of one frame to a settled value keeps every frame's
/// values settled, and so do more definitions and more open registers.
proof fn lemma_env_settled_set(
    a: Env,
    b: Env,
    f: Label,
    name: Seq<char>,
    v: Value,
    blocks: Seq<ir::Block>,
    blocks2: Seq<ir::Block>,
    open: Set<RegNum>,
    open2: Set<RegNum>,
)
    requires
        env_settled(a, blocks, open),
        defs_grow(blocks, blocks2),
        open.subset_of(open2),
        value_settled(blocks2, open2, v),
        b.frame_count() == a.frame_count(),
        forall|l: Label| #[trigger] a.valid_frame(l) && l != f ==> b.frame_locals(l) == a.frame_locals(l),
        a.valid_frame(f) ==> b.frame_locals(f) == a.frame_locals(f) || b.frame_locals(f) == a.frame_locals(f).insert(name, v),
    ensures
        env_settled(b, blocks2, open2),
{
    assert forall|l: Label, x: Seq<char>| b.valid_frame(l) && #[trigger] b.frame_locals(l).contains_key(x)
        implies value_settled(blocks2, open2, b.frame_locals(l)[x]) by {
        assert(a.valid_frame(l));
        if l != f {
            assert(a.frame_locals(l).contains_key(x));
        } else if !(x == name && b.frame_locals(f) == a.frame_locals(f).insert(name, v)) {
            assert(a.frame_locals(l).contains_key(x));
        }
    }
}

/// Where every open register outside `o0` is defined, what is settled with `o1` open is
/// settled with `o0` open.
proof fn lemma_settled_shrink(env: Env, blocks: Seq<ir::Block>, o1: Set<RegNum>, o0: Set<RegNum>)
    requires
        reads_settled(blocks, o1),
        env_settled(env, blocks, o1),
        forall|r: RegNum| #[trigger] o1.contains(r) ==> o0.contains(r) || defines(blocks, r),
    ensures
        reads_settled(blocks, o0),
        env_settled(env, blocks, o0),
{
    assert forall|t: int, ph: bool, k: int, j: int| #[trigger] operand_at(blocks, t, ph, k, j) matches Some(v)
        ==> value_settled(blocks, o0, v) by {
        if let Some(v) = operand_at(blocks, t, ph, k, j) {
            assert(value_settled(blocks, o1, v));
        }
    }
    assert forall|l: Label, x: Seq<char>| env.valid_frame(l) && #[trigger] env.frame_locals(l).contains_key(x)
        implies value_settled(blocks, o0, env.frame_locals(l)[x]) by {
        assert(value_settled(blocks, o1, env.frame_locals(l)[x]));
    }
}

/// Two operands with the same model read the same register.
proof fn lemma_view_below(a: Value, b: Value, n: u32)
    requires
        a@ == b@,
    ensures
        value_below(a, n) == value_below(b, n),
        forall|blocks: Seq<ir::Block>, open: Set<RegNum>| value_settled(blocks, open, a) == #[trigger] value_settled(blocks, open, b),
{
}

/// Changing the value of one variable of one frame to a value that reads below `n` keeps
/// every frame's values below `n`, and so does raising the bound.
proof fn lemma_env_below_set(a: Env, b: Env, f: Label, name: Seq<char>, v: Value, n: u32, m: u32)
    requires
        env_below(a, n),
        n <= m,
        value_below(v, m),
        b.frame_count() == a.frame_count(),
        forall|l: Label| #[trigger] a.valid_frame(l) && l != f ==> b.frame_locals(l) == a.frame_locals(l),
        a.valid_frame(f) ==> b.frame_locals(f) == a.frame_locals(f) || b.frame_locals(f) == a.frame_locals(f).insert(name, v),
    ensures
        env_below(b, m),
{
    assert forall|l: Label, x: Seq<char>| b.valid_frame(l) && #[trigger] b.frame_locals(l).contains_key(x)
        implies value_below(b.frame_locals(l)[x], m) by {
        assert(a.valid_frame(l));
        if l != f {
            assert(a.frame_locals(l).contains_key(x));
        } else if !(x == name && b.frame_locals(f) == a.frame_locals(f).insert(name, v)) {
            assert(a.frame_locals(l).contains_key(x));
        }
    }
}

impl<'a> Env<'a> {
    /// A frame that declares a name, seen from frame `l`, is `l` or one of its ancestors.
    pub proof fn lemma_defining_frame_measure(&self, l: Label, name: Seq<char>)
        ensures
            self.defining_frame(l, name) matches Some(d) ==> chain_measure(d) <= chain_measure(l)
                && self.valid_frame(d) && self.frame_locals(d).contains_key(name),
        decreases chain_measure(l),
    {
        if self.valid_frame(l) && !self.frame_locals(l).contains_key(name) {
            match self.frame_parent(l) {
                Some(p) => if chain_measure(p) < chain_measure(l) {
                    self.lemma_defining_frame_measure(p, name);
                },
                None => {},
            }
        }
    }

    /// The function called `name`: its return type, and whether it is a method. Fails where
    /// the code is a method's (calls from methods are not generated) or no such function is known.
    pub fn get_function(&self, name: &str) -> (res: Option<FunctionInfoWrapper>)
        requires
            self.global_context().wf(),
        ensures
            self.class_context() is Some ==> res is None,
            self.class_context() is None ==> match res {
                Some(info) => self.global_context().functions().contains_key(name@)
                    && info.ret_type@ == spec_from_ast(self.global_context().functions()[name@].ret)
                    && !info.is_class_method,
                None => !self.global_context().functions().contains_key(name@),
            },
    {
        if self.class_ctx.is_some() {
            return None;
        }
        match self.global_ctx.get_function_description(name) {
            Some(desc) => Some(FunctionInfoWrapper {
                ret_type: Type::from_ast(&desc.ret_type.inner),
                is_class_method: false,
            }),
            None => None,
        }
    }

    /// The names of all variables that the block of frame `frame` sees, each once.
    pub fn get_all_visible_local_variables(&self, frame: Label) -> (res: Vec<String>)
        requires
            self.wf(),
            self.valid_frame(frame),
        ensures
            names_distinct(res@),
            forall|n: Seq<char>| #[trigger] names_contain(res@, n) <==> self.lookup(frame, n) is Some,
    {
        let mut names: Vec<String> = Vec::new();
        let mut it: Option<Label> = Some(frame);
        while it.is_some()
            invariant
                self.wf(),
                self.valid_frame(frame),
                names_distinct(names@),
                match it {
                    Some(l) => self.valid_frame(l) && forall|n: Seq<char>| #[trigger] names_contain(names@, n) <==>
                        (self.defining_frame(frame, n) is Some && self.defining_frame(frame, n) != self.defining_frame(l, n)),
                    None => forall|n: Seq<char>| #[trigger] names_contain(names@, n) <==> self.defining_frame(frame, n) is Some,
                },
                match it {
                    Some(l) => forall|n: Seq<char>| #[trigger] self.defining_frame(frame, n) != self.defining_frame(l, n)
                        ==> (self.defining_frame(frame, n) matches Some(d) && chain_measure(d) > chain_measure(l)),
                    None => true,
                },
            decreases match it { Some(l) => chain_measure(l) + 1, None => 0 },
        {
            let l = it.unwrap();
            let f = if l.0 == ARGS_LABEL_NO { &self.args } else { &self.frames[l.0 as usize] };
            assert(f.locals@ == self.frame_locals(l));
            assert(f.parent == self.frame_parent(l));
            proof {
                f.locals.lemma_view();
            }
            let ghost before = names@;
            let mut k: usize = 0;
            while k < f.locals.len()
                invariant
                    self.wf(),
                    self.valid_frame(l),
                    self.valid_frame(frame),
                    f.locals.wf(),
                    f.locals@ == self.frame_locals(l),
                    k <= f.locals.entries().len(),
                    names_distinct(names@),
                    forall|n: Seq<char>| #[trigger] names_contain(names@, n) <==>
                        (names_contain(before, n) || exists|j: int| 0 <= j < k && f.locals.entries()[j].0@ == n),
                decreases f.locals.entries().len() - k,
            {
                let e = f.locals.entry_at(k);
                let ghost names_before = names@;
                if !contains_name(&names, e.0.as_str()) {
                    names.push(e.0.clone());
                    proof {
                        assert forall|n: Seq<char>| #[trigger] names_contain(names@, n) <==> (names_contain(names_before, n) || n == e.0@) by {
                            if names_contain(names@, n) {
                                let j = choose|j: int| 0 <= j < names@.len() && (#[trigger] names@[j])@ == n;
                                if j < names_before.len() {
                                    assert(names_before[j] == names@[j]);
                                }
                            }
                            if names_contain(names_before, n) {
                                let j = choose|j: int| 0 <= j < names_before.len() && (#[trigger] names_before[j])@ == n;
                                assert(names@[j] == names_before[j]);
                            }
                            if n == e.0@ {
                                assert(names@[names@.len() - 1]@ == n);
                            }
                        }
                        assert forall|a: int, b: int| 0 <= a < names@.len() && 0 <= b < names@.len() && a != b
                            implies (#[trigger] names@[a])@ != (#[trigger] names@[b])@ by {
                            if a < names_before.len() && b < names_before.len() {
                                assert(names@[a] == names_before[a] && names@[b] == names_before[b]);
                            } else if a < names_before.len() {
                                assert(names@[a] == names_before[a]);
                            } else if b < names_before.len() {
                                assert(names@[b] == names_before[b]);
                            }
                        }
                    }
                }
                proof {
                    assert forall|n: Seq<char>| #[trigger] names_contain(names@, n) <==>
                        (names_contain(before, n) || exists|j: int| 0 <= j < k + 1 && f.locals.entries()[j].0@ == n) by {
                        if exists|j: int| 0 <= j < k + 1 && f.locals.entries()[j].0@ == n {
                            let j = choose|j: int| 0 <= j < k + 1 && f.locals.entries()[j].0@ == n;
                            if j < k {
                            }
                        }
                    }
                }
                k = k + 1;
            }
            proof {
                assert forall|n: Seq<char>| #[trigger] names_contain(names@, n) <==> (names_contain(before, n) || self.frame_locals(l).contains_key(n)) by {
                    if self.frame_locals(l).contains_key(n) {
                        let j = choose|j: int| 0 <= j < f.locals.entries().len() && f.locals.entries()[j].0@ == n;
                        assert(exists|j: int| 0 <= j < k && f.locals.entries()[j].0@ == n);
                    }
                }
            }
            let next = f.parent;
            proof {
                assert forall|n: Seq<char>| #[trigger] names_contain(names@, n) <==>
                    (match next {
                        Some(p) => self.defining_frame(frame, n) is Some && self.defining_frame(frame, n) != self.defining_frame(p, n),
                        None => self.defining_frame(frame, n) is Some,
                    }) by {
                    self.lemma_defining_frame_measure(l, n);
                    self.lemma_defining_frame_measure(frame, n);
                    match next {
                        Some(p) => {
                            self.lemma_defining_frame_measure(p, n);
                            assert(chain_measure(p) < chain_measure(l));
                            if !self.frame_locals(l).contains_key(n) {
                                assert(self.defining_frame(l, n) == self.defining_frame(p, n));
                            }
                        },
                        None => {
                            assert(l.0 == ARGS_LABEL_NO);
                        },
                    }
                }
                match next {
                    Some(p) => {
                        assert(chain_measure(p) < chain_measure(l));
                        assert forall|n: Seq<char>| #[trigger] self.defining_frame(frame, n) != self.defining_frame(p, n)
                            implies (self.defining_frame(frame, n) matches Some(d) && chain_measure(d) > chain_measure(p)) by {
                            self.lemma_defining_frame_measure(l, n);
                            if !self.frame_locals(l).contains_key(n) {
                                assert(self.defining_frame(l, n) == self.defining_frame(p, n));
                            }
                        }
                    },
                    None => {},
                }
            }
            it = next;
        }
        names
    }
}


/// Two environments whose frames declare the same names under the same parents find every
/// name in the same frame.
proof fn lemma_same_shape_same_defining_frame(a: Env, b: Env, l: Label, n: Seq<char>)
    requires
        a.frame_count() == b.frame_count(),
        forall|x: Label| #[trigger] a.valid_frame(x) ==> a.frame_parent(x) == b.frame_parent(x)
            && a.frame_locals(x).dom() == b.frame_locals(x).dom(),
    ensures
        a.defining_frame(l, n) == b.defining_frame(l, n),
    decreases chain_measure(l),
{
    if a.valid_frame(l) {
        assert(a.frame_locals(l).dom() == b.frame_locals(l).dom());
        assert(a.frame_locals(l).contains_key(n) == b.frame_locals(l).contains_key(n));
        if !a.frame_locals(l).contains_key(n) {
            match a.frame_parent(l) {
                Some(p) => if chain_measure(p) < chain_measure(l) {
                    lemma_same_shape_same_defining_frame(a, b, p, n);
                },
                None => {},
            }
        }
    }
}


impl<'a> Env<'a> {
    /// Every frame of `self` is in `b` with the same parent and the same variables.
    pub open spec fn frames_kept(&self, b: Env<'a>) -> bool {
        &&& self.frame_count() <= b.frame_count()
        &&& forall|x: Label| #![trigger self.valid_frame(x)] #![trigger b.frame_locals(x)] #![trigger b.frame_parent(x)]
                self.valid_frame(x) ==> b.frame_parent(x) == self.frame_parent(x) && b.frame_locals(x) == self.frame_locals(x)
    }

    /// Every frame of `self` is in `b` with the same parent and the same variables, whose
    /// values keep their types; only frame `x` may declare more variables.
    pub open spec fn shape_grows(&self, b: Env<'a>, x: Label) -> bool {
        &&& self.frame_count() <= b.frame_count()
        &&& forall|l: Label| #[trigger] self.valid_frame(l) ==> b.frame_parent(l) == self.frame_parent(l)
                && (l != x ==> b.frame_locals(l).dom() == self.frame_locals(l).dom())
        &&& forall|l: Label, n: Seq<char>| #[trigger] self.frame_locals(l).contains_key(n) && self.valid_frame(l)
                ==> b.frame_locals(l).contains_key(n)
                && spec_value_type(b.frame_locals(l)[n]@) == spec_value_type(self.frame_locals(l)[n]@)
    }

    /// Frames `a` and `b` see the same variables with the same values.
    pub open spec fn sees_same(&self, a: Label, b: Label) -> bool {
        forall|n: Seq<char>| #[trigger] self.lookup(a, n) == self.lookup(b, n)
    }

    /// The variables that frame `l` sees are those of `vars`, each with a value of the type
    /// that `vars` gives.
    pub open spec fn vars_typed(&self, l: Label, vars: Map<Seq<char>, TypeModel>) -> bool {
        &&& forall|n: Seq<char>| #[trigger] vars.contains_key(n) ==> (self.lookup(l, n) matches Some(v)
                && spec_value_type(v@) == vars[n])
        &&& forall|n: Seq<char>| #[trigger] self.lookup(l, n) is Some ==> vars.contains_key(n)
    }

    /// The parent of a block frame is an older frame.
    pub proof fn lemma_parent_older(&self, l: Label)
        requires
            self.wf(),
            self.valid_frame(l),
        ensures
            match self.frame_parent(l) {
                Some(p) => self.valid_frame(p) && chain_measure(p) < chain_measure(l),
                None => l.0 == ARGS_LABEL_NO,
            },
    {
    }
}

/// Seen from an old frame, a name is found in the same frame as long as every old frame keeps
/// its parent and whether it declares the name.
proof fn lemma_kept_defining_frame(a: Env, b: Env, l: Label, n: Seq<char>)
    requires
        a.wf(),
        a.frame_count() <= b.frame_count(),
        forall|x: Label| #[trigger] a.valid_frame(x) ==> b.frame_parent(x) == a.frame_parent(x)
            && (b.frame_locals(x).contains_key(n) == a.frame_locals(x).contains_key(n)),
        a.valid_frame(l),
    ensures
        b.defining_frame(l, n) == a.defining_frame(l, n),
    decreases chain_measure(l),
{
    a.lemma_parent_older(l);
    assert(a.valid_frame(l));
    if !a.frame_locals(l).contains_key(n) {
        match a.frame_parent(l) {
            Some(p) => {
                lemma_kept_defining_frame(a, b, p, n);
            },
            None => {},
        }
    }
}

/// Where the frames are kept, so is what every old frame sees.
proof fn lemma_frames_kept_lookup(a: Env, b: Env, l: Label, n: Seq<char>)
    requires
        a.wf(),
        a.frames_kept(b),
        a.valid_frame(l),
    ensures
        b.lookup(l, n) == a.lookup(l, n),
{
    lemma_kept_defining_frame(a, b, l, n);
    a.lemma_defining_frame_measure(l, n);
}

/// Where the frames are kept, so is everything that an old frame sees.
proof fn lemma_frames_kept_lookups(a: Env, b: Env, l: Label)
    requires
        a.wf(),
        a.frames_kept(b),
        a.valid_frame(l),
    ensures
        forall|n: Seq<char>| #[trigger] b.lookup(l, n) == a.lookup(l, n),
{
    assert forall|n: Seq<char>| #[trigger] b.lookup(l, n) == a.lookup(l, n) by {
        lemma_frames_kept_lookup(a, b, l, n);
    }
}

/// Where the frames are kept, the variables that an old frame sees keep their types.
proof fn lemma_frames_kept_vars_typed(a: Env, b: Env, l: Label, vars: Map<Seq<char>, TypeModel>)
    requires
        a.wf(),
        a.frames_kept(b),
        a.valid_frame(l),
        a.vars_typed(l, vars),
    ensures
        b.vars_typed(l, vars),
{
    lemma_frames_kept_lookups(a, b, l);
}

/// A frame without variables sees the variables of its parent.
proof fn lemma_empty_child_vars_typed(e: Env, c: Label, p: Label, vars: Map<Seq<char>, TypeModel>)
    requires
        e.wf(),
        e.valid_frame(c),
        e.frame_parent(c) == Some(p),
        e.frame_locals(c).dom() == Set::<Seq<char>>::empty(),
        e.vars_typed(p, vars),
    ensures
        e.vars_typed(c, vars),
        forall|n: Seq<char>| #[trigger] e.lookup(c, n) == e.lookup(p, n),
{
    assert forall|n: Seq<char>| #[trigger] e.lookup(c, n) == e.lookup(p, n) by {
        lemma_empty_child_lookup(e, c, p, n);
    }
}

/// After a part of an expression is compiled from frame `cur` on, ending at frame `l1` that
/// sees what `cur` sees, the variables that `cur` saw are seen, with their types, from `l1`.
proof fn lemma_expr_step(e0: Env, e1: Env, cur: Label, l1: Label, vars: Map<Seq<char>, TypeModel>)
    requires
        e0.wf(),
        e0.frames_kept(e1),
        e0.valid_frame(cur),
        forall|n: Seq<char>| #[trigger] e1.lookup(l1, n) == e1.lookup(cur, n),
        e0.vars_typed(cur, vars),
    ensures
        e1.vars_typed(l1, vars),
{
    lemma_frames_kept_vars_typed(e0, e1, cur, vars);
}

/// Two parts of an expression compiled one after the other: from frame `cur` to `l1`, then
/// from `l1` to `l2`.
proof fn lemma_expr_chain(e0: Env, e1: Env, e2: Env, cur: Label, l1: Label, l2: Label)
    requires
        e0.wf(),
        e1.wf(),
        e0.frames_kept(e1),
        e1.frames_kept(e2),
        e0.valid_frame(cur),
        e1.valid_frame(l1),
        l1 == cur || (!e0.valid_frame(l1) && e1.frame_locals(l1).dom() == Set::<Seq<char>>::empty()),
        forall|n: Seq<char>| #[trigger] e1.lookup(l1, n) == e1.lookup(cur, n),
        l2 == l1 || (!e1.valid_frame(l2) && e2.frame_locals(l2).dom() == Set::<Seq<char>>::empty()),
        forall|n: Seq<char>| #[trigger] e2.lookup(l2, n) == e2.lookup(l1, n),
    ensures
        e0.frames_kept(e2),
        l2 == cur || (!e0.valid_frame(l2) && e2.frame_locals(l2).dom() == Set::<Seq<char>>::empty()),
        forall|n: Seq<char>| #[trigger] e2.lookup(l2, n) == e2.lookup(cur, n),
{
    lemma_frames_kept_lookups(e1, e2, l1);
    lemma_frames_kept_lookups(e1, e2, cur);
    if l2 == l1 && l1 != cur {
        assert(e1.valid_frame(l1));
        assert(e2.frame_locals(l1) == e1.frame_locals(l1));
    }
}

/// Frames that are kept make a shape that grows nowhere.
proof fn lemma_frames_kept_shape(a: Env, b: Env, x: Label)
    requires
        a.frames_kept(b),
    ensures
        a.shape_grows(b, x),
{
    assert forall|l: Label, n: Seq<char>| #[trigger] a.frame_locals(l).contains_key(n) && a.valid_frame(l)
        implies b.frame_locals(l).contains_key(n)
        && spec_value_type(b.frame_locals(l)[n]@) == spec_value_type(a.frame_locals(l)[n]@) by {
        assert(b.frame_locals(l) == a.frame_locals(l));
    }
}

/// A shape that grows at `x` and then at `y`, a frame that is `x` or was not there, grows at
/// `x`.
proof fn lemma_shape_trans(a: Env, b: Env, c: Env, x: Label, y: Label)
    requires
        a.shape_grows(b, x),
        b.shape_grows(c, y),
        y == x || !a.valid_frame(y),
    ensures
        a.shape_grows(c, x),
{
    assert forall|l: Label| #[trigger] a.valid_frame(l) implies c.frame_parent(l) == a.frame_parent(l)
        && (l != x ==> c.frame_locals(l).dom() == a.frame_locals(l).dom()) by {
        assert(b.valid_frame(l));
    }
    assert forall|l: Label, n: Seq<char>| #[trigger] a.frame_locals(l).contains_key(n) && a.valid_frame(l)
        implies c.frame_locals(l).contains_key(n)
        && spec_value_type(c.frame_locals(l)[n]@) == spec_value_type(a.frame_locals(l)[n]@) by {
        assert(b.frame_locals(l).contains_key(n));
        assert(b.valid_frame(l));
    }
}

/// A shape that grows at `x`, where `x` declares no more names than before, grows nowhere.
proof fn lemma_shape_settle(a: Env, b: Env, x: Label)
    requires
        a.shape_grows(b, x),
        a.valid_frame(x) ==> b.frame_locals(x).dom().subset_of(a.frame_locals(x).dom()),
    ensures
        a.shape_grows(b, Label(UNREACHABLE_LABEL_NO)),
{
    if a.valid_frame(x) {
        assert(b.frame_locals(x).dom() =~= a.frame_locals(x).dom());
    }
}

/// A shape that grows at a frame that was not there grows nowhere.
proof fn lemma_shape_retarget(a: Env, b: Env, x: Label, y: Label)
    requires
        a.shape_grows(b, x),
        !a.valid_frame(x),
    ensures
        a.shape_grows(b, y),
{
}

/// Declaring a variable in frame `cur` grows the shape there, and `cur` sees it.
proof fn lemma_add_var(a: Env, b: Env, cur: Label, name: Seq<char>, v: Value, vars: Map<Seq<char>, TypeModel>)
    requires
        a.wf(),
        a.valid_frame(cur),
        !a.frame_locals(cur).contains_key(name),
        b.frame_count() == a.frame_count(),
        b.frame_locals(cur) == a.frame_locals(cur).insert(name, v),
        forall|l: Label| #[trigger] a.valid_frame(l) && l != cur ==> b.frame_locals(l) == a.frame_locals(l),
        forall|l: Label| #[trigger] a.valid_frame(l) ==> b.frame_parent(l) == a.frame_parent(l),
        a.vars_typed(cur, vars),
    ensures
        a.shape_grows(b, cur),
        b.vars_typed(cur, vars.insert(name, spec_value_type(v@))),
{
    let nv = vars.insert(name, spec_value_type(v@));
    assert forall|n: Seq<char>| #[trigger] nv.contains_key(n) implies (b.lookup(cur, n) matches Some(w)
        && spec_value_type(w@) == nv[n]) by {
        if n == name {
            assert(b.frame_locals(cur).contains_key(name));
        } else {
            assert forall|x: Label| #[trigger] a.valid_frame(x) implies b.frame_parent(x) == a.frame_parent(x)
                && (b.frame_locals(x).contains_key(n) == a.frame_locals(x).contains_key(n)) by {
                if x != cur {
                    assert(b.frame_locals(x) == a.frame_locals(x));
                }
            }
            lemma_kept_defining_frame(a, b, cur, n);
            a.lemma_defining_frame_measure(cur, n);
            assert(vars.contains_key(n));
            let d = a.defining_frame(cur, n)->0;
            if d != cur {
                assert(b.frame_locals(d) == a.frame_locals(d));
            }
        }
    }
    assert forall|n: Seq<char>| #[trigger] b.lookup(cur, n) is Some implies nv.contains_key(n) by {
        if n != name {
            assert forall|x: Label| #[trigger] a.valid_frame(x) implies b.frame_parent(x) == a.frame_parent(x)
                && (b.frame_locals(x).contains_key(n) == a.frame_locals(x).contains_key(n)) by {
                if x != cur {
                    assert(b.frame_locals(x) == a.frame_locals(x));
                }
            }
            lemma_kept_defining_frame(a, b, cur, n);
            assert(a.lookup(cur, n) is Some);
        }
    }
    assert forall|l: Label, n: Seq<char>| #[trigger] a.frame_locals(l).contains_key(n) && a.valid_frame(l)
        implies b.frame_locals(l).contains_key(n)
        && spec_value_type(b.frame_locals(l)[n]@) == spec_value_type(a.frame_locals(l)[n]@) by {
        if l != cur {
            assert(b.frame_locals(l) == a.frame_locals(l));
        }
    }
}

/// Giving a variable that frame `cur` sees a new value of the same type keeps the shape and
/// what `cur` sees of the types.
proof fn lemma_update_var(a: Env, b: Env, cur: Label, name: Seq<char>, v: Value, vars: Map<Seq<char>, TypeModel>)
    requires
        a.wf(),
        a.valid_frame(cur),
        a.defining_frame(cur, name) is Some,
        b.frame_locals(a.defining_frame(cur, name)->0) == a.frame_locals(a.defining_frame(cur, name)->0).insert(name, v),
        b.frame_count() == a.frame_count(),
        forall|l: Label| #[trigger] a.valid_frame(l) && l != a.defining_frame(cur, name)->0
            ==> b.frame_locals(l) == a.frame_locals(l),
        forall|l: Label| #[trigger] a.valid_frame(l) ==> b.frame_parent(l) == a.frame_parent(l),
        a.vars_typed(cur, vars),
        vars.contains_key(name),
        spec_value_type(v@) == vars[name],
    ensures
        a.shape_grows(b, Label(UNREACHABLE_LABEL_NO)),
        b.vars_typed(cur, vars),
{
    let d = a.defining_frame(cur, name)->0;
    a.lemma_defining_frame_measure(cur, name);
    assert(a.frame_locals(d).contains_key(name));
    assert(b.frame_locals(d).dom() =~= a.frame_locals(d).dom());
    assert forall|x: Label| #[trigger] a.valid_frame(x) implies b.frame_parent(x) == a.frame_parent(x)
        && b.frame_locals(x).dom() == a.frame_locals(x).dom() by {
        if x != d {
            assert(b.frame_locals(x) == a.frame_locals(x));
        }
    }
    assert forall|n: Seq<char>| #[trigger] vars.contains_key(n) implies (b.lookup(cur, n) matches Some(w)
        && spec_value_type(w@) == vars[n]) by {
        assert forall|x: Label| #[trigger] a.valid_frame(x) implies b.frame_parent(x) == a.frame_parent(x)
            && (b.frame_locals(x).contains_key(n) == a.frame_locals(x).contains_key(n)) by {
            assert(b.frame_locals(x).dom() == a.frame_locals(x).dom());
            assert(b.frame_locals(x).dom().contains(n) == a.frame_locals(x).dom().contains(n));
        }
        lemma_kept_defining_frame(a, b, cur, n);
        a.lemma_defining_frame_measure(cur, n);
        let dn = a.defining_frame(cur, n)->0;
        if dn != d {
            assert(b.frame_locals(dn) == a.frame_locals(dn));
        }
    }
    assert forall|n: Seq<char>| #[trigger] b.lookup(cur, n) is Some implies vars.contains_key(n) by {
        assert forall|x: Label| #[trigger] a.valid_frame(x) implies b.frame_parent(x) == a.frame_parent(x)
            && (b.frame_locals(x).contains_key(n) == a.frame_locals(x).contains_key(n)) by {
            assert(b.frame_locals(x).dom() == a.frame_locals(x).dom());
            assert(b.frame_locals(x).dom().contains(n) == a.frame_locals(x).dom().contains(n));
        }
        lemma_kept_defining_frame(a, b, cur, n);
        assert(a.lookup(cur, n) is Some);
    }
    assert forall|l: Label, n: Seq<char>| #[trigger] a.frame_locals(l).contains_key(n) && a.valid_frame(l)
        implies b.frame_locals(l).contains_key(n)
        && spec_value_type(b.frame_locals(l)[n]@) == spec_value_type(a.frame_locals(l)[n]@) by {
        if l != d {
            assert(b.frame_locals(l) == a.frame_locals(l));
        }
    }
}

/// Giving a variable that frame `cur` sees a new value of the same type keeps the shape.
proof fn lemma_update_same_type(a: Env, b: Env, cur: Label, name: Seq<char>, v: Value)
    requires
        a.wf(),
        a.valid_frame(cur),
        a.defining_frame(cur, name) is Some,
        b.frame_locals(a.defining_frame(cur, name)->0) == a.frame_locals(a.defining_frame(cur, name)->0).insert(name, v),
        spec_value_type(v@) == spec_value_type(a.lookup(cur, name)->0@),
        b.frame_count() == a.frame_count(),
        forall|l: Label| #[trigger] a.valid_frame(l) && l != a.defining_frame(cur, name)->0
            ==> b.frame_locals(l) == a.frame_locals(l),
        forall|l: Label| #[trigger] a.valid_frame(l) ==> b.frame_parent(l) == a.frame_parent(l),
    ensures
        a.shape_grows(b, Label(UNREACHABLE_LABEL_NO)),
{
    let d = a.defining_frame(cur, name)->0;
    a.lemma_defining_frame_measure(cur, name);
    assert(b.frame_locals(d).dom() =~= a.frame_locals(d).dom());
    assert forall|x: Label| #[trigger] a.valid_frame(x) implies b.frame_parent(x) == a.frame_parent(x)
        && b.frame_locals(x).dom() == a.frame_locals(x).dom() by {
        if x != d {
            assert(b.frame_locals(x) == a.frame_locals(x));
        }
    }
    assert forall|l: Label, n: Seq<char>| #[trigger] a.frame_locals(l).contains_key(n) && a.valid_frame(l)
        implies b.frame_locals(l).contains_key(n)
        && spec_value_type(b.frame_locals(l)[n]@) == spec_value_type(a.frame_locals(l)[n]@) by {
        if l != d {
            assert(b.frame_locals(l) == a.frame_locals(l));
        }
    }
}

/// Seen from an old frame whose label is under `bound`, a name is found in the same frame as
/// long as every old frame under `bound` and the parameters' frame keep their parents and
/// whether they declare the name.
proof fn lemma_kept_defining_frame_below(a: Env, b: Env, l: Label, n: Seq<char>, bound: u32)
    requires
        a.wf(),
        a.frame_count() <= b.frame_count(),
        forall|x: Label| #[trigger] a.valid_frame(x) && (x.0 < bound || x.0 == ARGS_LABEL_NO)
            ==> b.frame_parent(x) == a.frame_parent(x)
            && (b.frame_locals(x).contains_key(n) == a.frame_locals(x).contains_key(n)),
        a.valid_frame(l),
        l.0 < bound || l.0 == ARGS_LABEL_NO,
    ensures
        b.defining_frame(l, n) == a.defining_frame(l, n),
    decreases chain_measure(l),
{
    a.lemma_parent_older(l);
    if !a.frame_locals(l).contains_key(n) {
        match a.frame_parent(l) {
            Some(p) => {
                lemma_kept_defining_frame_below(a, b, p, n, bound);
            },
            None => {},
        }
    }
}

/// Where the shape grows at frame `x` only, what a frame older than `x` sees keeps its type.
proof fn lemma_shape_vars_typed_below(a: Env, b: Env, x: Label, l: Label, vars: Map<Seq<char>, TypeModel>)
    requires
        a.wf(),
        a.shape_grows(b, x),
        a.valid_frame(l),
        l.0 < x.0,
        x.0 < ARGS_LABEL_NO,
        a.vars_typed(l, vars),
    ensures
        b.vars_typed(l, vars),
{
    assert forall|n: Seq<char>| #[trigger] vars.contains_key(n) implies (b.lookup(l, n) matches Some(v)
        && spec_value_type(v@) == vars[n]) by {
        assert forall|y: Label| #[trigger] a.valid_frame(y) && (y.0 < x.0 || y.0 == ARGS_LABEL_NO)
            implies b.frame_parent(y) == a.frame_parent(y)
            && (b.frame_locals(y).contains_key(n) == a.frame_locals(y).contains_key(n)) by {
            assert(b.frame_locals(y).dom() == a.frame_locals(y).dom());
            assert(b.frame_locals(y).dom().contains(n) == a.frame_locals(y).dom().contains(n));
        }
        lemma_kept_defining_frame_below(a, b, l, n, x.0);
        a.lemma_defining_frame_measure(l, n);
    }
    assert forall|n: Seq<char>| #[trigger] b.lookup(l, n) is Some implies vars.contains_key(n) by {
        assert forall|y: Label| #[trigger] a.valid_frame(y) && (y.0 < x.0 || y.0 == ARGS_LABEL_NO)
            implies b.frame_parent(y) == a.frame_parent(y)
            && (b.frame_locals(y).contains_key(n) == a.frame_locals(y).contains_key(n)) by {
            assert(b.frame_locals(y).dom() == a.frame_locals(y).dom());
            assert(b.frame_locals(y).dom().contains(n) == a.frame_locals(y).dom().contains(n));
        }
        lemma_kept_defining_frame_below(a, b, l, n, x.0);
        assert(a.lookup(l, n) is Some);
    }
}

/// Where the shape grows at no old frame, every old frame finds every name in the same frame.
proof fn lemma_kept_defining_frame_shape(a: Env, b: Env, l: Label, n: Seq<char>)
    requires
        a.wf(),
        a.shape_grows(b, Label(UNREACHABLE_LABEL_NO)),
        a.valid_frame(l),
    ensures
        b.defining_frame(l, n) == a.defining_frame(l, n),
        b.lookup(l, n) is Some == a.lookup(l, n) is Some,
        a.lookup(l, n) is Some ==> spec_value_type(b.lookup(l, n)->0@) == spec_value_type(a.lookup(l, n)->0@),
{
    assert forall|y: Label| #[trigger] a.valid_frame(y) implies b.frame_parent(y) == a.frame_parent(y)
        && (b.frame_locals(y).contains_key(n) == a.frame_locals(y).contains_key(n)) by {
        assert(b.frame_locals(y).dom() == a.frame_locals(y).dom());
        assert(b.frame_locals(y).dom().contains(n) == a.frame_locals(y).dom().contains(n));
    }
    lemma_kept_defining_frame(a, b, l, n);
    a.lemma_defining_frame_measure(l, n);
}

/// Distinct names, as many as the members of the set they make up.
proof fn lemma_names_count(names: Seq<String>, s: Set<Seq<char>>)
    requires
        names_distinct(names),
        forall|n: Seq<char>| #[trigger] names_contain(names, n) <==> s.contains(n),
    ensures
        s.finite(),
        names.len() == s.len(),
{
    let m = names.map_values(|x: String| x@);
    assert(m.no_duplicates()) by {
        assert forall|i: int, j: int| 0 <= i < m.len() && 0 <= j < m.len() && i != j implies m[i] != m[j] by {
            assert(names[i]@ != names[j]@);
        }
    }
    assert(m.to_set() =~= s) by {
        assert forall|n: Seq<char>| m.to_set().contains(n) <==> s.contains(n) by {
            if m.to_set().contains(n) {
                let j = choose|j: int| 0 <= j < m.len() && m[j] == n;
                assert(names[j]@ == n);
                assert(names_contain(names, n));
            }
            if s.contains(n) {
                assert(names_contain(names, n));
                let j = choose|j: int| 0 <= j < names.len() && (#[trigger] names[j])@ == n;
                assert(m[j] == n);
            }
        }
    }
    m.unique_seq_to_set();
}

/// Where the frames are kept, two old frames that saw the same still do.
proof fn lemma_sees_same_kept(a: Env, b: Env, x: Label, y: Label)
    requires
        a.wf(),
        a.frames_kept(b),
        a.valid_frame(x),
        a.valid_frame(y),
        a.sees_same(x, y),
    ensures
        b.sees_same(x, y),
{
    lemma_frames_kept_lookups(a, b, x);
    lemma_frames_kept_lookups(a, b, y);
}

/// Where the shape grows at no old frame, what an old frame sees keeps its type.
proof fn lemma_shape_vars_typed(a: Env, b: Env, x: Label, l: Label, vars: Map<Seq<char>, TypeModel>)
    requires
        a.wf(),
        a.shape_grows(b, x),
        !a.valid_frame(x),
        a.valid_frame(l),
        a.vars_typed(l, vars),
    ensures
        b.vars_typed(l, vars),
{
    assert forall|n: Seq<char>| #[trigger] vars.contains_key(n) implies (b.lookup(l, n) matches Some(v)
        && spec_value_type(v@) == vars[n]) by {
        assert forall|y: Label| #[trigger] a.valid_frame(y) implies b.frame_parent(y) == a.frame_parent(y)
            && (b.frame_locals(y).contains_key(n) == a.frame_locals(y).contains_key(n)) by {
            assert(b.frame_locals(y).dom() == a.frame_locals(y).dom());
            assert(b.frame_locals(y).dom().contains(n) == a.frame_locals(y).dom().contains(n));
        }
        lemma_kept_defining_frame(a, b, l, n);
        a.lemma_defining_frame_measure(l, n);
    }
    assert forall|n: Seq<char>| #[trigger] b.lookup(l, n) is Some implies vars.contains_key(n) by {
        assert forall|y: Label| #[trigger] a.valid_frame(y) implies b.frame_parent(y) == a.frame_parent(y)
            && (b.frame_locals(y).contains_key(n) == a.frame_locals(y).contains_key(n)) by {
            assert(b.frame_locals(y).dom() == a.frame_locals(y).dom());
            assert(b.frame_locals(y).dom().contains(n) == a.frame_locals(y).dom().contains(n));
        }
        lemma_kept_defining_frame(a, b, l, n);
        assert(a.lookup(l, n) is Some);
    }
}

/// A frame without variables sees what its parent sees.
proof fn lemma_empty_child_lookup(e: Env, c: Label, p: Label, n: Seq<char>)
    requires
        e.wf(),
        e.valid_frame(c),
        e.frame_parent(c) == Some(p),
        e.frame_locals(c).dom() == Set::<Seq<char>>::empty(),
    ensures
        e.lookup(c, n) == e.lookup(p, n),
{
    e.lemma_parent_older(c);
    assert(!e.frame_locals(c).contains_key(n)) by {
        assert(!e.frame_locals(c).dom().contains(n));
    }
}

/// Whether an operation jumps to block `t`.
pub open spec fn is_branch_to(op: ir::Operation, t: Label) -> bool {
    match op {
        ir::Operation::Branch1(x) => x == t,
        ir::Operation::Branch2(_, a, b) => a == t || b == t,
        _ => false,
    }
}

/// Whether an operation is a jump.
pub open spec fn is_branch(op: ir::Operation) -> bool {
    op is Branch1 || op is Branch2
}

/// Whether some operation of `body` jumps to block `t`.
pub open spec fn has_branch_to(body: Seq<ir::Operation>, t: Label) -> bool {
    exists|k: int| 0 <= k < body.len() && is_branch_to(#[trigger] body[k], t)
}

/// Whether block `p`, a predecessor of block `t`, exists and jumps to `t`.
pub open spec fn pred_ok(blocks: Seq<ir::Block>, t: int, p: Label) -> bool {
    &&& (p.0 as int) < blocks.len()
    &&& has_branch_to(blocks[p.0 as int].body@, Label(t as u32))
}

/// Whether the jumps of an operation of block `i` lead to existing blocks that list `i`
/// among their predecessors.
pub open spec fn op_ok(blocks: Seq<ir::Block>, i: int, op: ir::Operation) -> bool {
    match op {
        ir::Operation::Branch1(t) => (t.0 as int) < blocks.len()
            && blocks[t.0 as int].predecessors@.contains(Label(i as u32)),
        ir::Operation::Branch2(_, a, b) => (a.0 as int) < blocks.len()
            && blocks[a.0 as int].predecessors@.contains(Label(i as u32))
            && (b.0 as int) < blocks.len()
            && blocks[b.0 as int].predecessors@.contains(Label(i as u32)),
        _ => true,
    }
}

/// The control flow graph of a list of blocks is consistent: each block's label is its
/// position, every jump leads to an existing block that lists the jumping block among its
/// predecessors, and every predecessor of a block jumps to it.
pub open spec fn cfg_wf(blocks: Seq<ir::Block>) -> bool {
    &&& forall|i: int| 0 <= i < blocks.len() ==> (#[trigger] blocks[i]).label.0 == i
    &&& forall|i: int, j: int| 0 <= i < blocks.len() && 0 <= j < blocks[i].predecessors@.len()
            ==> pred_ok(blocks, i, #[trigger] blocks[i].predecessors@[j])
    &&& forall|i: int, k: int| 0 <= i < blocks.len() && 0 <= k < blocks[i].body@.len()
            ==> op_ok(blocks, i, #[trigger] blocks[i].body@[k])
}

/// The blocks that the incoming values of a phi function come from, in order.
pub open spec fn phi_labels(vs: Seq<(Value, Label)>) -> Seq<Label> {
    vs.map_values(|e: (Value, Label)| e.1)
}

/// Every phi function of a block has one incoming value for each predecessor of the block, in
/// the order in which the predecessors are listed.
pub open spec fn phis_match(blocks: Seq<ir::Block>) -> bool {
    forall|i: int, k: int| 0 <= i < blocks.len() && 0 <= k < blocks[i].phi_set@.len()
        ==> phi_labels((#[trigger] blocks[i].phi_set@[k]).2@) == blocks[i].predecessors@
}

/// The register that an operation defines, if any.
pub open spec fn op_def(op: ir::Operation) -> Option<RegNum> {
    match op {
        ir::Operation::FunctionCall(r, _, _, _) => r,
        ir::Operation::Arithmetic(r, _, _, _) => Some(r),
        ir::Operation::Compare(r, _, _, _) => Some(r),
        ir::Operation::GetElementPtr(r, _, _, _) => Some(r),
        ir::Operation::CastGlobalString(r, _, _) => Some(r),
        _ => None,
    }
}

/// The register defined at position `k` of block `i`: among its phi functions where `phi`,
/// else among its operations.
pub open spec fn def_at(blocks: Seq<ir::Block>, i: int, phi: bool, k: int) -> Option<RegNum> {
    if 0 <= i < blocks.len() {
        if phi {
            if 0 <= k < blocks[i].phi_set@.len() {
                Some(blocks[i].phi_set@[k].0)
            } else {
                None
            }
        } else {
            if 0 <= k < blocks[i].body@.len() {
                op_def(blocks[i].body@[k])
            } else {
                None
            }
        }
    } else {
        None
    }
}

/// Some phi function or operation defines register `r`.
pub open spec fn defines(blocks: Seq<ir::Block>, r: RegNum) -> bool {
    exists|i: int, phi: bool, k: int| #[trigger] def_at(blocks, i, phi, k) == Some(r)
}

/// Static single assignment: no register is defined at two places.
pub open spec fn single_defs(blocks: Seq<ir::Block>) -> bool {
    forall|i1: int, p1: bool, k1: int, i2: int, p2: bool, k2: int|
        #![trigger def_at(blocks, i1, p1, k1), def_at(blocks, i2, p2, k2)]
        def_at(blocks, i1, p1, k1) is Some && def_at(blocks, i1, p1, k1) == def_at(blocks, i2, p2, k2)
            ==> i1 == i2 && p1 == p2 && k1 == k2
}

/// Every register that `b` defines and `a` does not is numbered `n` or more.
pub open spec fn defs_since(a: Seq<ir::Block>, b: Seq<ir::Block>, n: u32) -> bool {
    forall|r: RegNum| #[trigger] defines(b, r) ==> defines(a, r) || n <= r.0
}

/// The number of phi functions, or of operations, of block `i`.
pub open spec fn defs_len(blocks: Seq<ir::Block>, i: int, phi: bool) -> int {
    if phi {
        blocks[i].phi_set@.len() as int
    } else {
        blocks[i].body@.len() as int
    }
}

/// The register that an operand reads, if it reads one.
pub open spec fn value_reg(v: Value) -> Option<RegNum> {
    match v {
        Value::Register(r, _) => Some(r),
        _ => None,
    }
}

/// The operand reads no register numbered `n` or more.
pub open spec fn value_below(v: Value, n: u32) -> bool {
    value_reg(v) matches Some(r) ==> r.0 < n
}

/// Operand `j` of an operation, if it has one there.
pub open spec fn op_operand(op: ir::Operation, j: int) -> Option<Value> {
    match op {
        ir::Operation::Return(Some(v)) => if j == 0 { Some(v) } else { None },
        ir::Operation::FunctionCall(_, _, _, args) => if 0 <= j < args@.len() { Some(args@[j]) } else { None },
        ir::Operation::Arithmetic(_, _, a, b) => if j == 0 { Some(a) } else if j == 1 { Some(b) } else { None },
        ir::Operation::Compare(_, _, a, b) => if j == 0 { Some(a) } else if j == 1 { Some(b) } else { None },
        ir::Operation::GetElementPtr(_, _, a, b) => if j == 0 { Some(a) } else if j == 1 { Some(b) } else { None },
        ir::Operation::Branch2(v, _, _) => if j == 0 { Some(v) } else { None },
        _ => None,
    }
}

/// Every operand of the operation reads a register numbered below `n`, if any.
pub open spec fn op_below(op: ir::Operation, n: u32) -> bool {
    forall|j: int| #[trigger] op_operand(op, j) matches Some(v) ==> value_below(v, n)
}

/// The register read by operand `j` at position `k` of block `i`: of its phi functions where
/// `phi`, else of its operations.
pub open spec fn use_at(blocks: Seq<ir::Block>, i: int, phi: bool, k: int, j: int) -> Option<RegNum> {
    if 0 <= i < blocks.len() {
        if phi {
            if 0 <= k < blocks[i].phi_set@.len() && 0 <= j < blocks[i].phi_set@[k].2@.len() {
                value_reg(blocks[i].phi_set@[k].2@[j].0)
            } else {
                None
            }
        } else {
            if 0 <= k < blocks[i].body@.len() {
                match op_operand(blocks[i].body@[k], j) {
                    Some(v) => value_reg(v),
                    None => None,
                }
            } else {
                None
            }
        }
    } else {
        None
    }
}

/// Some phi function or operation reads register `r`.
pub open spec fn uses(blocks: Seq<ir::Block>, r: RegNum) -> bool {
    exists|i: int, phi: bool, k: int, j: int| #[trigger] use_at(blocks, i, phi, k, j) == Some(r)
}

/// Every register that a phi function or operation reads is numbered below `n`.
pub open spec fn reads_below(blocks: Seq<ir::Block>, n: u32) -> bool {
    forall|i: int, phi: bool, k: int, j: int| #[trigger] use_at(blocks, i, phi, k, j) matches Some(r) ==> r.0 < n
}

/// Appending one operation to block `i` of `a`, whose operands read registers below `n`,
/// keeps every read below `n`.
proof fn lemma_add_op_reads(a: Seq<ir::Block>, b: Seq<ir::Block>, i: int, op: ir::Operation, n: u32)
    requires
        reads_below(a, n),
        0 <= i < a.len(),
        b.len() == a.len(),
        forall|t: int| 0 <= t < a.len() && t != i ==> #[trigger] b[t] == a[t],
        b[i].phi_set == a[i].phi_set,
        b[i].body@ == a[i].body@.push(op),
        op_below(op, n),
    ensures
        reads_below(b, n),
{
    assert forall|t: int, phi: bool, k: int, j: int| #[trigger] use_at(b, t, phi, k, j) matches Some(r) ==> r.0 < n by {
        if 0 <= t < b.len() && t != i {
            assert(use_at(b, t, phi, k, j) == use_at(a, t, phi, k, j));
        } else if t == i {
            if phi {
                assert(use_at(b, t, phi, k, j) == use_at(a, t, phi, k, j));
            } else if 0 <= k < a[i].body@.len() {
                assert(b[i].body@[k] == a[i].body@[k]);
                assert(use_at(b, t, phi, k, j) == use_at(a, t, phi, k, j));
            } else if k == a[i].body@.len() {
                assert(b[i].body@[k] == op);
                if let Some(v) = op_operand(op, j) {
                    assert(value_below(v, n));
                }
            }
        }
    }
}

/// Adding one phi function to block `i` of `a`, whose incoming values read registers below
/// `n`, keeps every read below `n`.
proof fn lemma_add_phi_reads(a: Seq<ir::Block>, b: Seq<ir::Block>, i: int, phi_fn: ir::Phi, n: u32)
    requires
        reads_below(a, n),
        0 <= i < a.len(),
        b.len() == a.len(),
        forall|t: int| 0 <= t < a.len() && t != i ==> #[trigger] b[t] == a[t],
        b[i].body == a[i].body,
        b[i].phi_set@ == a[i].phi_set@.push(phi_fn),
        forall|j: int| 0 <= j < phi_fn.2@.len() ==> value_below(#[trigger] phi_fn.2@[j].0, n),
    ensures
        reads_below(b, n),
{
    assert forall|t: int, phi: bool, k: int, j: int| #[trigger] use_at(b, t, phi, k, j) matches Some(r) ==> r.0 < n by {
        if 0 <= t < b.len() && t != i {
            assert(use_at(b, t, phi, k, j) == use_at(a, t, phi, k, j));
        } else if t == i {
            if !phi {
                assert(use_at(b, t, phi, k, j) == use_at(a, t, phi, k, j));
            } else if 0 <= k < a[i].phi_set@.len() {
                assert(b[i].phi_set@[k] == a[i].phi_set@[k]);
                assert(use_at(b, t, phi, k, j) == use_at(a, t, phi, k, j));
            } else if k == a[i].phi_set@.len() && 0 <= j < phi_fn.2@.len() {
                assert(b[i].phi_set@[k] == phi_fn);
                assert(value_below(phi_fn.2@[j].0, n));
            }
        }
    }
}

/// Reads that are below `n` are below any larger bound, and changing only predecessors or
/// adding an empty block keeps them.
proof fn lemma_reads_keep(a: Seq<ir::Block>, b: Seq<ir::Block>, n: u32, m: u32)
    requires
        reads_below(a, n),
        n <= m,
        a.len() <= b.len(),
        forall|t: int| 0 <= t < a.len() ==> (#[trigger] b[t]).phi_set == a[t].phi_set && b[t].body == a[t].body,
        forall|t: int| a.len() <= t < b.len() ==> (#[trigger] b[t]).phi_set@.len() == 0 && b[t].body@.len() == 0,
    ensures
        reads_below(b, m),
{
    assert forall|t: int, phi: bool, k: int, j: int| #[trigger] use_at(b, t, phi, k, j) matches Some(r) ==> r.0 < m by {
        if 0 <= t < a.len() {
            assert(use_at(b, t, phi, k, j) == use_at(a, t, phi, k, j));
        }
    }
}

/// Operand `j` at position `k` of block `i`: of its phi functions where `phi`, else of its
/// operations.
pub open spec fn operand_at(blocks: Seq<ir::Block>, i: int, phi: bool, k: int, j: int) -> Option<Value> {
    if 0 <= i < blocks.len() {
        if phi {
            if 0 <= k < blocks[i].phi_set@.len() && 0 <= j < blocks[i].phi_set@[k].2@.len() {
                Some(blocks[i].phi_set@[k].2@[j].0)
            } else {
                None
            }
        } else {
            if 0 <= k < blocks[i].body@.len() {
                op_operand(blocks[i].body@[k], j)
            } else {
                None
            }
        }
    } else {
        None
    }
}

/// The register that a value of a type other than `void` reads, if it reads one.
pub open spec fn live_reg(v: Value) -> Option<RegNum> {
    match v {
        Value::Register(r, t) => if t@ is Void { None } else { Some(r) },
        _ => None,
    }
}

/// The value, unless it is of type `void`, reads a register that `blocks` defines or that is
/// in `open`, if any.
pub open spec fn value_settled(blocks: Seq<ir::Block>, open: Set<RegNum>, v: Value) -> bool {
    live_reg(v) matches Some(r) ==> defines(blocks, r) || open.contains(r)
}

/// Every operand of every phi function and operation is settled.
pub open spec fn reads_settled(blocks: Seq<ir::Block>, open: Set<RegNum>) -> bool {
    forall|i: int, phi: bool, k: int, j: int| #[trigger] operand_at(blocks, i, phi, k, j) matches Some(v)
        ==> value_settled(blocks, open, v)
}

/// Every operand of the operation is settled.
pub open spec fn op_settled(op: ir::Operation, blocks: Seq<ir::Block>, open: Set<RegNum>) -> bool {
    forall|j: int| #[trigger] op_operand(op, j) matches Some(v) ==> value_settled(blocks, open, v)
}

/// Every register that `a` defines, `b` defines.
pub open spec fn defs_grow(a: Seq<ir::Block>, b: Seq<ir::Block>) -> bool {
    forall|r: RegNum| #[trigger] defines(a, r) ==> defines(b, r)
}

/// Every phi function and operation of `a` stays, at its place, in `b`.
pub open spec fn ops_kept(a: Seq<ir::Block>, b: Seq<ir::Block>) -> bool {
    &&& a.len() <= b.len()
    &&& forall|i: int| 0 <= i < a.len() ==> a[i].body@.len() <= (#[trigger] b[i]).body@.len()
            && a[i].phi_set@.len() <= b[i].phi_set@.len()
    &&& forall|i: int, k: int| 0 <= i < a.len() && 0 <= k < a[i].body@.len() ==> #[trigger] b[i].body@[k] == a[i].body@[k]
    &&& forall|i: int, k: int| 0 <= i < a.len() && 0 <= k < a[i].phi_set@.len()
            ==> #[trigger] b[i].phi_set@[k] == a[i].phi_set@[k]
}

/// Keeping phi functions and operations is transitive.
proof fn lemma_ops_kept_trans(a: Seq<ir::Block>, b: Seq<ir::Block>, c: Seq<ir::Block>)
    requires
        ops_kept(a, b),
        ops_kept(b, c),
    ensures
        ops_kept(a, c),
{
    assert forall|i: int| 0 <= i < a.len() implies a[i].body@.len() <= (#[trigger] c[i]).body@.len()
        && a[i].phi_set@.len() <= c[i].phi_set@.len() by {
        assert(a[i].body@.len() <= b[i].body@.len());
    }
    assert forall|i: int, k: int| 0 <= i < a.len() && 0 <= k < a[i].body@.len() implies #[trigger] c[i].body@[k] == a[i].body@[k] by {
        assert(a[i].body@.len() <= b[i].body@.len());
        assert(b[i].body@[k] == a[i].body@[k]);
    }
    assert forall|i: int, k: int| 0 <= i < a.len() && 0 <= k < a[i].phi_set@.len() implies #[trigger] c[i].phi_set@[k] == a[i].phi_set@[k] by {
        assert(a[i].phi_set@.len() <= b[i].phi_set@.len());
        assert(b[i].phi_set@[k] == a[i].phi_set@[k]);
    }
}

/// The operation that defines register `r`, if an operation does.
pub open spec fn defining_op(blocks: Seq<ir::Block>, r: RegNum) -> Option<ir::Operation> {
    if exists|i: int, k: int| #[trigger] def_at(blocks, i, false, k) == Some(r) {
        let (i, k) = choose|i: int, k: int| #[trigger] def_at(blocks, i, false, k) == Some(r);
        Some(blocks[i].body@[k])
    } else {
        None
    }
}

/// The phi function that defines register `r`, if a phi function does.
pub open spec fn defining_phi(blocks: Seq<ir::Block>, r: RegNum) -> Option<ir::Phi> {
    if exists|i: int, k: int| #[trigger] def_at(blocks, i, true, k) == Some(r) {
        let (i, k) = choose|i: int, k: int| #[trigger] def_at(blocks, i, true, k) == Some(r);
        Some(blocks[i].phi_set@[k])
    } else {
        None
    }
}

/// Where every register is defined once, the operation at a place that defines `r` is the
/// one that defines it, and likewise for a phi function.
proof fn lemma_defining_at(blocks: Seq<ir::Block>, i: int, phi: bool, k: int, r: RegNum)
    requires
        single_defs(blocks),
        def_at(blocks, i, phi, k) == Some(r),
    ensures
        !phi ==> defining_op(blocks, r) == Some(blocks[i].body@[k]),
        phi ==> defining_phi(blocks, r) == Some(blocks[i].phi_set@[k]),
{
    let (i2, k2) = choose|i2: int, k2: int| #[trigger] def_at(blocks, i2, phi, k2) == Some(r);
    assert(def_at(blocks, i2, phi, k2) == Some(r));
}

/// The last operation of block `l`, where it defines `r`, is the one that defines `r`.
proof fn lemma_last_op_defines(blocks: Seq<ir::Block>, l: int, r: RegNum)
    requires
        single_defs(blocks),
        0 <= l < blocks.len(),
        blocks[l].body@.len() > 0,
        op_def(blocks[l].body@.last()) == Some(r),
    ensures
        defining_op(blocks, r) == Some(blocks[l].body@.last()),
{
    let k = blocks[l].body@.len() - 1;
    assert(def_at(blocks, l, false, k) == Some(r));
    lemma_defining_at(blocks, l, false, k, r);
}

/// Keeping every phi function and operation keeps what defines each register.
proof fn lemma_defining_kept(a: Seq<ir::Block>, b: Seq<ir::Block>, r: RegNum)
    requires
        ops_kept(a, b),
        single_defs(b),
    ensures
        defining_op(a, r) is Some ==> defining_op(b, r) == defining_op(a, r),
        defining_phi(a, r) is Some ==> defining_phi(b, r) == defining_phi(a, r),
{
    if defining_op(a, r) is Some {
        let (i, k) = choose|i: int, k: int| #[trigger] def_at(a, i, false, k) == Some(r);
        assert(b[i].body@[k] == a[i].body@[k]);
        assert(def_at(b, i, false, k) == Some(r));
        lemma_defining_at(b, i, false, k, r);
    }
    if defining_phi(a, r) is Some {
        let (i, k) = choose|i: int, k: int| #[trigger] def_at(a, i, true, k) == Some(r);
        assert(b[i].phi_set@[k] == a[i].phi_set@[k]);
        assert(def_at(b, i, true, k) == Some(r));
        lemma_defining_at(b, i, true, k, r);
    }
}

/// Appending one operation, or adding one phi function, to block `i` of `a`, whose operands
/// are settled, keeps every operand settled.
proof fn lemma_add_settled(a: Seq<ir::Block>, b: Seq<ir::Block>, i: int, phi: bool, extra: spec_fn(int) -> Option<Value>, open: Set<RegNum>)
    requires
        reads_settled(a, open),
        defs_grow(a, b),
        0 <= i < a.len(),
        b.len() == a.len(),
        forall|t: int| 0 <= t < a.len() && t != i ==> #[trigger] b[t] == a[t],
        phi ==> b[i].body == a[i].body && b[i].phi_set@.len() == a[i].phi_set@.len() + 1
            && forall|k: int| 0 <= k < a[i].phi_set@.len() ==> #[trigger] b[i].phi_set@[k] == a[i].phi_set@[k],
        !phi ==> b[i].phi_set == a[i].phi_set && b[i].body@.len() == a[i].body@.len() + 1
            && forall|k: int| 0 <= k < a[i].body@.len() ==> #[trigger] b[i].body@[k] == a[i].body@[k],
        forall|j: int| #[trigger] operand_at(b, i, phi, defs_len(a, i, phi), j) == extra(j),
        forall|j: int| #[trigger] extra(j) matches Some(v) ==> value_settled(a, open, v),
    ensures
        reads_settled(b, open),
{
    let n = defs_len(a, i, phi);
    assert forall|t: int, ph: bool, k: int, j: int| #[trigger] operand_at(b, t, ph, k, j) matches Some(v)
        ==> value_settled(b, open, v) by {
        let v = operand_at(b, t, ph, k, j)->0;
        if operand_at(b, t, ph, k, j) is None {
        } else if t == i && ph == phi && k == n {
            assert(extra(j) == Some(v));
        } else {
            if 0 <= t < a.len() && t != i {
                assert(operand_at(b, t, ph, k, j) == operand_at(a, t, ph, k, j));
            } else if t == i {
                if ph {
                    if 0 <= k < a[i].phi_set@.len() {
                        assert(b[i].phi_set@[k] == a[i].phi_set@[k]);
                    }
                } else {
                    if 0 <= k < a[i].body@.len() {
                        assert(b[i].body@[k] == a[i].body@[k]);
                    }
                }
                assert(operand_at(b, t, ph, k, j) == operand_at(a, t, ph, k, j));
            }
            assert(value_settled(a, open, v));
        }
    }
}

/// Keeping every block's phi functions and operations, adding only empty blocks, keeps every
/// operand settled, the more so as more registers are defined or open.
proof fn lemma_settled_keep(a: Seq<ir::Block>, b: Seq<ir::Block>, open: Set<RegNum>, open2: Set<RegNum>)
    requires
        reads_settled(a, open),
        defs_grow(a, b),
        open.subset_of(open2),
        a.len() <= b.len(),
        forall|t: int| 0 <= t < a.len() ==> (#[trigger] b[t]).phi_set == a[t].phi_set && b[t].body == a[t].body,
        forall|t: int| a.len() <= t < b.len() ==> (#[trigger] b[t]).phi_set@.len() == 0 && b[t].body@.len() == 0,
    ensures
        reads_settled(b, open2),
{
    assert forall|t: int, ph: bool, k: int, j: int| #[trigger] operand_at(b, t, ph, k, j) matches Some(v)
        ==> value_settled(b, open2, v) by {
        if 0 <= t < a.len() {
            assert(operand_at(b, t, ph, k, j) == operand_at(a, t, ph, k, j));
        }
    }
}

/// Adding one phi function or operation at the end of block `i`, which defines `d`, where
/// `d` is not defined yet, keeps every register defined once.
proof fn lemma_add_def(a: Seq<ir::Block>, b: Seq<ir::Block>, i: int, phi: bool, d: Option<RegNum>)
    requires
        single_defs(a),
        0 <= i < a.len(),
        b.len() == a.len(),
        forall|j: int, p: bool, k: int| !(j == i && p == phi && k == defs_len(a, i, phi))
            ==> #[trigger] def_at(b, j, p, k) == def_at(a, j, p, k),
        def_at(b, i, phi, defs_len(a, i, phi)) == d,
        d matches Some(r) ==> !defines(a, r),
    ensures
        single_defs(b),
        forall|r: RegNum| #[trigger] defines(b, r) <==> (defines(a, r) || d == Some(r)),
{
    let n = defs_len(a, i, phi);
    assert(def_at(a, i, phi, n) is None);
    assert forall|i1: int, p1: bool, k1: int, i2: int, p2: bool, k2: int|
        def_at(b, i1, p1, k1) is Some && #[trigger] def_at(b, i1, p1, k1) == #[trigger] def_at(b, i2, p2, k2)
        implies i1 == i2 && p1 == p2 && k1 == k2 by {
        let new1 = i1 == i && p1 == phi && k1 == n;
        let new2 = i2 == i && p2 == phi && k2 == n;
        if !new1 && !new2 {
            assert(def_at(a, i1, p1, k1) == def_at(a, i2, p2, k2));
        } else if new1 && !new2 {
            assert(def_at(a, i2, p2, k2) == d);
            assert(defines(a, d->0));
        } else if !new1 && new2 {
            assert(def_at(a, i1, p1, k1) == d);
            assert(defines(a, d->0));
        }
    }
    assert forall|r: RegNum| #[trigger] defines(b, r) <==> (defines(a, r) || d == Some(r)) by {
        if defines(b, r) {
            let (j, p, k) = choose|j: int, p: bool, k: int| #[trigger] def_at(b, j, p, k) == Some(r);
            if !(j == i && p == phi && k == n) {
                assert(def_at(a, j, p, k) == Some(r));
            }
        }
        if defines(a, r) {
            let (j, p, k) = choose|j: int, p: bool, k: int| #[trigger] def_at(a, j, p, k) == Some(r);
            assert(def_at(b, j, p, k) == Some(r));
        }
        if d == Some(r) {
            assert(def_at(b, i, phi, n) == Some(r));
        }
    }
}

/// Adding an empty block keeps the definitions.
proof fn lemma_add_block_defs(a: Seq<ir::Block>, b: Seq<ir::Block>)
    requires
        single_defs(a),
        b.len() == a.len() + 1,
        forall|j: int| 0 <= j < a.len() ==> #[trigger] b[j] == a[j],
        b[a.len() as int].phi_set@.len() == 0,
        b[a.len() as int].body@.len() == 0,
    ensures
        single_defs(b),
        forall|r: RegNum| #[trigger] defines(b, r) == defines(a, r),
{
    assert forall|j: int, p: bool, k: int| #[trigger] def_at(b, j, p, k) == def_at(a, j, p, k) by {
        if 0 <= j < a.len() {
            assert(b[j] == a[j]);
        }
    }
    assert forall|i1: int, p1: bool, k1: int, i2: int, p2: bool, k2: int|
        def_at(b, i1, p1, k1) is Some && #[trigger] def_at(b, i1, p1, k1) == #[trigger] def_at(b, i2, p2, k2)
        implies i1 == i2 && p1 == p2 && k1 == k2 by {
        assert(def_at(a, i1, p1, k1) == def_at(a, i2, p2, k2));
    }
    assert forall|r: RegNum| #[trigger] defines(b, r) == defines(a, r) by {
        if defines(b, r) {
            let (j, p, k) = choose|j: int, p: bool, k: int| #[trigger] def_at(b, j, p, k) == Some(r);
            assert(def_at(a, j, p, k) == Some(r));
        }
        if defines(a, r) {
            let (j, p, k) = choose|j: int, p: bool, k: int| #[trigger] def_at(a, j, p, k) == Some(r);
            assert(def_at(b, j, p, k) == Some(r));
        }
    }
}

/// The blocks of `a` keep, in `b`, their phi functions and their predecessors.
pub open spec fn keeps_old(a: Seq<ir::Block>, b: Seq<ir::Block>) -> bool {
    &&& a.len() <= b.len()
    &&& forall|t: int| 0 <= t < a.len() ==> (#[trigger] b[t]).phi_set == a[t].phi_set
            && b[t].predecessors == a[t].predecessors
}

/// The blocks of `a` keep, in `b`, their phi functions, and all but `x` and `y` their
/// predecessors.
pub open spec fn keeps_old_except(a: Seq<ir::Block>, b: Seq<ir::Block>, x: Label, y: Label) -> bool {
    &&& a.len() <= b.len()
    &&& forall|t: int| 0 <= t < a.len() ==> (#[trigger] b[t]).phi_set == a[t].phi_set
    &&& forall|t: int| 0 <= t < a.len() && t != x.0 && t != y.0 ==> (#[trigger] b[t]).predecessors == a[t].predecessors
}

/// Changing only the predecessors of blocks without phi functions keeps phi functions matching
/// predecessors.
proof fn lemma_phis_match_keep(a: Seq<ir::Block>, b: Seq<ir::Block>)
    requires
        phis_match(a),
        a.len() == b.len(),
        forall|i: int| 0 <= i < a.len() ==> (#[trigger] b[i]).phi_set == a[i].phi_set
            && (b[i].predecessors == a[i].predecessors || a[i].phi_set@.len() == 0),
    ensures
        phis_match(b),
{
    assert forall|i: int, k: int| 0 <= i < b.len() && 0 <= k < b[i].phi_set@.len()
        implies phi_labels((#[trigger] b[i].phi_set@[k]).2@) == b[i].predecessors@ by {
        assert(b[i].phi_set == a[i].phi_set);
        assert(a[i].phi_set@[k] == b[i].phi_set@[k]);
    }
}

/// Global string number `i` is the `i`-th string added, counted modulo 2^32.
pub open spec fn strings_wf(gs: NameMap<GlobalStrNum>) -> bool {
    &&& gs.wf()
    &&& forall|i: int| 0 <= i < gs.entries().len() ==> (#[trigger] gs.entries()[i]).1.0 == i as u32
}

/// The table `b` keeps every string of table `a` under its number, and may add more after them.
pub open spec fn strings_extend(a: NameMap<GlobalStrNum>, b: NameMap<GlobalStrNum>) -> bool {
    &&& a.entries().len() <= b.entries().len()
    &&& forall|i: int| 0 <= i < a.entries().len() ==> #[trigger] b.entries()[i] == a.entries()[i]
}

/// Generates the IR of one function.
pub struct FunctionCodeGen<'a> {
    global_strings: NameMap<GlobalStrNum>,
    env: Env<'a>,
    blocks: Vec<ir::Block>,
    next_reg_num: RegNum,
    /// The registers that may be read before they are defined: the parameters, and the
    /// registers of the phi functions of the loops being generated.
    open_regs: Ghost<Set<RegNum>>,
}

impl<'a> FunctionCodeGen<'a> {
    pub closed spec fn wf(&self) -> bool {
        &&& self.env.wf()
        &&& self.env.frame_count() == self.blocks@.len()
        &&& self.env.global_context().wf()
        &&& cfg_wf(self.blocks@)
        &&& phis_match(self.blocks@)
        &&& single_defs(self.blocks@)
        &&& forall|r: RegNum| #[trigger] defines(self.blocks@, r) ==> r.0 < self.next_reg_num.0
        &&& reads_below(self.blocks@, self.next_reg_num.0)
        &&& env_below(self.env, self.next_reg_num.0)
        &&& reads_settled(self.blocks@, self.open_regs@)
        &&& env_settled(self.env, self.blocks@, self.open_regs@)
        &&& strings_wf(self.global_strings)
    }

    /// The blocks generated so far.
    pub closed spec fn blocks(&self) -> Seq<ir::Block> {
        self.blocks@
    }

    /// The global context and the class whose method is generated, if any.
    pub closed spec fn contexts(&self) -> (&'a GlobalContext, Option<&'a ClassDesc>) {
        (self.env.global_context(), self.env.class_context())
    }

    /// The functions known to the program, builtins included.
    pub closed spec fn functions(&self) -> Map<Seq<char>, FunModel> {
        self.env.global_context().functions()
    }

    /// Whether the code generated is a method's.
    pub closed spec fn in_method(&self) -> bool {
        self.env.class_context() is Some
    }

    /// Nothing has been generated yet: no block, no register, no parameter.
    pub closed spec fn fresh(&self) -> bool {
        &&& self.blocks@.len() == 0
        &&& self.next_reg_num.0 == 0
        &&& self.env.frame_locals(Label(ARGS_LABEL_NO)) == Map::<Seq<char>, Value>::empty()
        &&& self.open_regs@ == Set::<RegNum>::empty()
    }

    /// The registers that may be read before they are defined.
    pub closed spec fn open_regs(&self) -> Set<RegNum> {
        self.open_regs@
    }

    /// The number of the next fresh register.
    pub closed spec fn next_reg(&self) -> u32 {
        self.next_reg_num.0
    }

    /// A copy of the value of a variable reads only registers already allocated.
    proof fn lemma_env_var_below(&self, l: Label, name: Seq<char>, v: Value)
        requires
            self.wf(),
            self.env.lookup(l, name) matches Some(w) && w@ == v@,
        ensures
            value_below(v, self.next_reg()),
            value_settled(self.blocks(), self.open_regs(), v),
    {
        lemma_lookup_below(self.env, l, name, self.next_reg_num.0);
        lemma_view_below(self.env.lookup(l, name)->0, v, self.next_reg_num.0);
        self.env.lemma_defining_frame_measure(l, name);
    }

    /// The global strings, the ones the function uses included.
    pub closed spec fn strings(&self) -> NameMap<GlobalStrNum> {
        self.global_strings
    }

    pub open spec fn valid_label(&self, l: Label) -> bool {
        (l.0 as int) < self.blocks().len()
    }

    /// A generator for a function or a method of class `cctx`, with the global strings
    /// known so far.
    pub fn new(gctx: &'a GlobalContext, cctx: Option<&'a ClassDesc>, global_strings: NameMap<GlobalStrNum>) -> (res: Self)
        requires
            gctx.wf(),
            strings_wf(global_strings),
        ensures
            res.wf(),
            res.fresh(),
            res.strings() == global_strings,
            res.functions() == gctx.functions(),
            res.in_method() == (cctx is Some),
    {
        FunctionCodeGen {
            global_strings,
            env: Env::new(gctx, cctx),
            blocks: Vec::new(),
            next_reg_num: RegNum(0),
            open_regs: Ghost(Set::empty()),
        }
    }

    /// The block labelled `label`.
    fn get_block(&self, label: Label) -> (res: &ir::Block)
        requires
            self.valid_label(label),
        ensures
            *res == self.blocks()[label.0 as int],
    {
        &self.blocks[label.0 as usize]
    }

    /// A fresh register. Fails where the register numbers have run out.
    fn get_new_reg_num(&mut self) -> (res: Option<RegNum>)
        requires
            old(self).wf(),
        ensures
            ops_kept(old(self).blocks(), final(self).blocks()),
            final(self).open_regs() == old(self).open_regs(),
            final(self).wf(),
            final(self).blocks() == old(self).blocks(),
            final(self).strings() == old(self).strings(),
            final(self).env == old(self).env,
            res matches Some(r) ==> r.0 == old(self).next_reg() && final(self).next_reg() == old(self).next_reg() + 1
                && !defines(final(self).blocks(), r),
            res is None ==> final(self).next_reg() == old(self).next_reg() && old(self).next_reg() == 4294967295u32,
    {
        if self.next_reg_num.0 == 4294967295u32 {
            return None;
        }
        let no = self.next_reg_num.0;
        self.next_reg_num = RegNum(no + 1);
        proof {
            lemma_reads_keep(self.blocks@, self.blocks@, no, (no + 1) as u32);
            lemma_env_below_set(self.env, self.env, Label(ARGS_LABEL_NO), Seq::empty(), Value::LitInt(0), no, (no + 1) as u32);
        }
        Some(RegNum(no))
    }

    /// A new empty block whose frame continues frame `parent_env_label`. Fails where the
    /// labels have run out.
    fn allocate_new_block(&mut self, parent_env_label: Label) -> (res: Option<Label>)
        requires
            old(self).wf(),
            old(self).env.valid_frame(parent_env_label),
        ensures
            ops_kept(old(self).blocks(), final(self).blocks()),
            final(self).open_regs() == old(self).open_regs(),
            defs_grow(old(self).blocks(), final(self).blocks()),
            final(self).wf(),
            final(self).blocks().len() >= old(self).blocks().len(),
            final(self).strings() == old(self).strings(),
            res matches Some(l) ==> l.0 == old(self).blocks().len() && final(self).blocks().len() == old(self).blocks().len() + 1
                && final(self).blocks()[l.0 as int].predecessors@.len() == 0
                && final(self).blocks()[l.0 as int].phi_set@.len() == 0,
            forall|i: int| 0 <= i < old(self).blocks().len() ==> #[trigger] final(self).blocks()[i] == old(self).blocks()[i],
            final(self).next_reg() == old(self).next_reg(),
            res is None ==> final(self).blocks().len() == old(self).blocks().len()
                && old(self).blocks().len() + 1 >= 4294967294,
            final(self).contexts() == old(self).contexts(),
            old(self).env.frames_kept(final(self).env),
            res matches Some(l) ==> !old(self).env.valid_frame(l) && final(self).env.valid_frame(l)
                && final(self).env.frame_parent(l) == Some(parent_env_label)
                && final(self).env.frame_locals(l).dom() == Set::<Seq<char>>::empty(),
            forall|r: RegNum| #[trigger] defines(final(self).blocks(), r) == defines(old(self).blocks(), r),
    {
        if self.blocks.len() + 1 >= 4294967294usize {
            return None;
        }
        let label = Label(self.blocks.len() as u32);
        self.blocks.push(ir::Block {
            label,
            phi_set: Vec::new(),
            predecessors: Vec::new(),
            body: Vec::new(),
        });
        self.env.allocate_new_frame(label, parent_env_label);
        proof {
            let n = self.blocks@.len();
            assert forall|i: int, j: int| 0 <= i < n && 0 <= j < self.blocks@[i].predecessors@.len()
                implies pred_ok(self.blocks@, i, #[trigger] self.blocks@[i].predecessors@[j]) by {
                let p = self.blocks@[i].predecessors@[j];
                assert(pred_ok(old(self).blocks@, i, p));
                let k = choose|k: int| 0 <= k < old(self).blocks@[p.0 as int].body@.len()
                    && is_branch_to(#[trigger] old(self).blocks@[p.0 as int].body@[k], Label(i as u32));
                assert(is_branch_to(self.blocks@[p.0 as int].body@[k], Label(i as u32)));
            }
            assert forall|i: int, k: int| 0 <= i < n && 0 <= k < self.blocks@[i].body@.len()
                implies op_ok(self.blocks@, i, #[trigger] self.blocks@[i].body@[k]) by {
                assert(op_ok(old(self).blocks@, i, old(self).blocks@[i].body@[k]));
            }
            assert forall|i: int, k: int| 0 <= i < n && 0 <= k < self.blocks@[i].phi_set@.len()
                implies phi_labels((#[trigger] self.blocks@[i].phi_set@[k]).2@) == self.blocks@[i].predecessors@ by {
                assert(self.blocks@[i] == old(self).blocks@[i]);
            }
            lemma_add_block_defs(old(self).blocks@, self.blocks@);
            lemma_reads_keep(old(self).blocks@, self.blocks@, self.next_reg_num.0, self.next_reg_num.0);
            let o = self.open_regs@;
            lemma_settled_keep(old(self).blocks@, self.blocks@, o, o);
            assert forall|l: Label, x: Seq<char>| self.env.valid_frame(l) && #[trigger] self.env.frame_locals(l).contains_key(x)
                implies value_settled(self.blocks@, o, self.env.frame_locals(l)[x]) by {
                if old(self).env.valid_frame(l) {
                    assert(old(self).env.frame_locals(l).contains_key(x));
                }
            }
            let e0 = old(self).env;
            assert forall|l: Label, x: Seq<char>| self.env.valid_frame(l) && #[trigger] self.env.frame_locals(l).contains_key(x)
                implies value_below(self.env.frame_locals(l)[x], self.next_reg_num.0) by {
                if e0.valid_frame(l) {
                    assert(e0.frame_locals(l).contains_key(x));
                }
            }
        }
        Some(label)
    }
}


/// Growing blocks' bodies and predecessor lists keeps the control flow graph consistent as
/// long as what is added is consistent.
proof fn lemma_cfg_grow(a: Seq<ir::Block>, b: Seq<ir::Block>)
    requires
        cfg_wf(a),
        a.len() == b.len(),
        forall|i: int| 0 <= i < a.len() ==> (#[trigger] b[i]).label == a[i].label,
        forall|i: int| 0 <= i < a.len() ==> (#[trigger] b[i]).body@.len() >= a[i].body@.len()
            && b[i].predecessors@.len() >= a[i].predecessors@.len(),
        forall|i: int, k: int| 0 <= i < a.len() && 0 <= k < a[i].body@.len() ==> #[trigger] b[i].body@[k] == a[i].body@[k],
        forall|i: int, j: int| 0 <= i < a.len() && 0 <= j < a[i].predecessors@.len()
            ==> #[trigger] b[i].predecessors@[j] == a[i].predecessors@[j],
        forall|i: int, k: int| 0 <= i < a.len() && a[i].body@.len() <= k < b[i].body@.len()
            ==> op_ok(b, i, #[trigger] b[i].body@[k]),
        forall|i: int, j: int| 0 <= i < a.len() && a[i].predecessors@.len() <= j < b[i].predecessors@.len()
            ==> pred_ok(b, i, #[trigger] b[i].predecessors@[j]),
    ensures
        cfg_wf(b),
{
    assert forall|i: int, j: int| 0 <= i < b.len() && 0 <= j < b[i].predecessors@.len()
        implies pred_ok(b, i, #[trigger] b[i].predecessors@[j]) by {
        if j < a[i].predecessors@.len() {
            let p = a[i].predecessors@[j];
            assert(pred_ok(a, i, p));
            let k = choose|k: int| 0 <= k < a[p.0 as int].body@.len()
                && is_branch_to(#[trigger] a[p.0 as int].body@[k], Label(i as u32));
            assert(b[p.0 as int].body@[k] == a[p.0 as int].body@[k]);
        }
    }
    assert forall|i: int, k: int| 0 <= i < b.len() && 0 <= k < b[i].body@.len()
        implies op_ok(b, i, #[trigger] b[i].body@[k]) by {
        if k < a[i].body@.len() {
            let op = a[i].body@[k];
            assert(op_ok(a, i, op));
            match op {
                ir::Operation::Branch1(t) => {
                    let j = choose|j: int| 0 <= j < a[t.0 as int].predecessors@.len() && a[t.0 as int].predecessors@[j] == Label(i as u32);
                    assert(b[t.0 as int].predecessors@[j] == a[t.0 as int].predecessors@[j]);
                },
                ir::Operation::Branch2(_, x, y) => {
                    let j = choose|j: int| 0 <= j < a[x.0 as int].predecessors@.len() && a[x.0 as int].predecessors@[j] == Label(i as u32);
                    assert(b[x.0 as int].predecessors@[j] == a[x.0 as int].predecessors@[j]);
                    let j2 = choose|j: int| 0 <= j < a[y.0 as int].predecessors@.len() && a[y.0 as int].predecessors@[j] == Label(i as u32);
                    assert(b[y.0 as int].predecessors@[j2] == a[y.0 as int].predecessors@[j2]);
                },
                _ => {},
            }
        }
    }
}

impl<'a> FunctionCodeGen<'a> {
    /// Appends an operation that does not jump to block `label`.
    fn push_op(&mut self, label: Label, op: ir::Operation)
        requires
            old(self).wf(),
            old(self).valid_label(label),
            !is_branch(op),
            op_def(op) matches Some(r) ==> !defines(old(self).blocks(), r) && r.0 < old(self).next_reg(),
            op_below(op, old(self).next_reg()),
            op_settled(op, old(self).blocks(), old(self).open_regs()),
        ensures
            final(self).blocks()[label.0 as int].body@ == old(self).blocks()[label.0 as int].body@.push(op),
            ops_kept(old(self).blocks(), final(self).blocks()),
            defs_grow(old(self).blocks(), final(self).blocks()),
            final(self).open_regs() == old(self).open_regs(),
            forall|r: RegNum| #[trigger] defines(final(self).blocks(), r) <==> (defines(old(self).blocks(), r) || op_def(op) == Some(r)),
            final(self).wf(),
            keeps_old(old(self).blocks(), final(self).blocks()),
            final(self).blocks().len() == old(self).blocks().len(),
            final(self).strings() == old(self).strings(),
            final(self).next_reg() == old(self).next_reg(),
            final(self).env == old(self).env,
    {
        let i = label.0 as usize;
        let ghost a = self.blocks@;
        let mut b = ir::Block { label: Label(0), phi_set: Vec::new(), predecessors: Vec::new(), body: Vec::new() };
        std::mem::swap(&mut b, &mut self.blocks[i]);
        b.body.push(op);
        std::mem::swap(&mut b, &mut self.blocks[i]);
        proof {
            assert forall|x: int| 0 <= x < a.len() implies (#[trigger] self.blocks@[x]).label == a[x].label by {}
            lemma_cfg_grow(a, self.blocks@);
            lemma_phis_match_keep(a, self.blocks@);
            assert(def_at(self.blocks@, i as int, false, defs_len(a, i as int, false)) == op_def(op));
            lemma_add_def(a, self.blocks@, i as int, false, op_def(op));
            lemma_add_op_reads(a, self.blocks@, i as int, op, self.next_reg_num.0);
            let o = self.open_regs@;
            assert(defs_grow(a, self.blocks@));
            assert forall|j: int| #[trigger] operand_at(self.blocks@, i as int, false, defs_len(a, i as int, false), j)
                == op_operand(op, j) by {
                assert(self.blocks@[i as int].body@[defs_len(a, i as int, false)] == op);
            }
            lemma_add_settled(a, self.blocks@, i as int, false, |j: int| op_operand(op, j), o);
            lemma_env_settled_set(self.env, self.env, Label(ARGS_LABEL_NO), Seq::empty(), Value::LitInt(0), a, self.blocks@, o, o);
        }
    }

    /// Adds a phi function to block `label`.
    fn push_phi(&mut self, label: Label, phi: ir::Phi)
        requires
            old(self).wf(),
            old(self).valid_label(label),
            phi_labels(phi.2@) == old(self).blocks()[label.0 as int].predecessors@,
            !defines(old(self).blocks(), phi.0),
            phi.0.0 < old(self).next_reg(),
            forall|j: int| 0 <= j < phi.2@.len() ==> value_below(#[trigger] phi.2@[j].0, old(self).next_reg()),
            forall|j: int| 0 <= j < phi.2@.len() ==> value_settled(old(self).blocks(), old(self).open_regs(), #[trigger] phi.2@[j].0),
        ensures
            final(self).blocks()[label.0 as int].phi_set@ == old(self).blocks()[label.0 as int].phi_set@.push(phi),
            ops_kept(old(self).blocks(), final(self).blocks()),
            defs_grow(old(self).blocks(), final(self).blocks()),
            final(self).open_regs() == old(self).open_regs(),
            forall|r: RegNum| #[trigger] defines(final(self).blocks(), r) <==> (defines(old(self).blocks(), r) || phi.0 == r),
            final(self).wf(),
            forall|i: int| 0 <= i < old(self).blocks().len() && i != label.0 ==> (#[trigger] final(self).blocks()[i]).phi_set
                == old(self).blocks()[i].phi_set,
            final(self).blocks().len() == old(self).blocks().len(),
            final(self).strings() == old(self).strings(),
            final(self).next_reg() == old(self).next_reg(),
            final(self).env == old(self).env,
            forall|i: int| 0 <= i < old(self).blocks().len() ==> (#[trigger] final(self).blocks()[i]).predecessors
                == old(self).blocks()[i].predecessors,
    {
        let i = label.0 as usize;
        let ghost a = self.blocks@;
        let ghost ph = phi;
        let mut b = ir::Block { label: Label(0), phi_set: Vec::new(), predecessors: Vec::new(), body: Vec::new() };
        std::mem::swap(&mut b, &mut self.blocks[i]);
        b.phi_set.push(phi);
        std::mem::swap(&mut b, &mut self.blocks[i]);
        proof {
            lemma_cfg_grow(a, self.blocks@);
            let bb = self.blocks@;
            assert(def_at(bb, i as int, true, defs_len(a, i as int, true)) == Some(ph.0));
            lemma_add_def(a, bb, i as int, true, Some(ph.0));
            lemma_add_phi_reads(a, bb, i as int, ph, self.next_reg_num.0);
            let o = self.open_regs@;
            assert(defs_grow(a, bb));
            let extra = |j: int| if 0 <= j < ph.2@.len() { Some(ph.2@[j].0) } else { None::<Value> };
            assert forall|j: int| #[trigger] operand_at(bb, i as int, true, defs_len(a, i as int, true), j) == extra(j) by {
                assert(bb[i as int].phi_set@[defs_len(a, i as int, true)] == ph);
            }
            assert forall|j: int| #[trigger] extra(j) matches Some(v) ==> value_settled(a, o, v) by {
                if 0 <= j < ph.2@.len() {
                    assert(value_settled(a, o, ph.2@[j].0));
                }
            }
            lemma_add_settled(a, bb, i as int, true, extra, o);
            lemma_env_settled_set(self.env, self.env, Label(ARGS_LABEL_NO), Seq::empty(), Value::LitInt(0), a, bb, o, o);
            assert forall|x: int, k: int| 0 <= x < bb.len() && 0 <= k < bb[x].phi_set@.len()
                implies phi_labels((#[trigger] bb[x].phi_set@[k]).2@) == bb[x].predecessors@ by {
                if x != i {
                    assert(bb[x] == a[x]);
                } else if k < a[x].phi_set@.len() {
                    assert(bb[x].phi_set@[k] == a[x].phi_set@[k]);
                }
            }
        }
    }

    /// Ends block `src` with a jump to block `dst`.
    fn add_branch1_op(&mut self, src: Label, dst: Label)
        requires
            old(self).wf(),
            old(self).valid_label(src),
            old(self).valid_label(dst),
            old(self).blocks()[dst.0 as int].phi_set@.len() == 0,
        ensures
            ops_kept(old(self).blocks(), final(self).blocks()),
            final(self).open_regs() == old(self).open_regs(),
            defs_grow(old(self).blocks(), final(self).blocks()),
            final(self).wf(),
            forall|i: int| 0 <= i < old(self).blocks().len() ==> (#[trigger] final(self).blocks()[i]).phi_set
                == old(self).blocks()[i].phi_set,
            final(self).blocks().len() == old(self).blocks().len(),
            final(self).strings() == old(self).strings(),
            final(self).next_reg() == old(self).next_reg(),
            final(self).env == old(self).env,
            final(self).blocks()[dst.0 as int].predecessors@ == old(self).blocks()[dst.0 as int].predecessors@.push(src),
            forall|i: int| 0 <= i < old(self).blocks().len() && i != dst.0 ==> (#[trigger] final(self).blocks()[i]).predecessors
                == old(self).blocks()[i].predecessors,
            forall|r: RegNum| #[trigger] defines(final(self).blocks(), r) == defines(old(self).blocks(), r),
    {
        let ghost a = self.blocks@;
        let s = src.0 as usize;
        let d = dst.0 as usize;
        let mut b = ir::Block { label: Label(0), phi_set: Vec::new(), predecessors: Vec::new(), body: Vec::new() };
        std::mem::swap(&mut b, &mut self.blocks[s]);
        b.body.push(ir::Operation::Branch1(dst));
        std::mem::swap(&mut b, &mut self.blocks[s]);
        let ghost mid = self.blocks@;
        let mut c = ir::Block { label: Label(0), phi_set: Vec::new(), predecessors: Vec::new(), body: Vec::new() };
        std::mem::swap(&mut c, &mut self.blocks[d]);
        c.predecessors.push(src);
        std::mem::swap(&mut c, &mut self.blocks[d]);
        proof {
            let bb = self.blocks@;
            assert(bb[s as int].body@.last() == ir::Operation::Branch1(dst));
            assert(bb[d as int].predecessors@.last() == src);
            assert(bb[d as int].predecessors@.contains(Label(s as int as u32)));
            assert(has_branch_to(bb[s as int].body@, Label(d as int as u32))) by {
                assert(is_branch_to(bb[s as int].body@[bb[s as int].body@.len() - 1], Label(d as int as u32)));
            }
            lemma_cfg_grow(a, bb);
            lemma_phis_match_keep(a, bb);
            assert(def_at(bb, s as int, false, defs_len(a, s as int, false)) == None::<RegNum>);
            lemma_add_def(a, bb, s as int, false, None);
            assert(op_operand(ir::Operation::Branch1(dst), 0) is None);
            lemma_add_op_reads(a, mid, s as int, ir::Operation::Branch1(dst), self.next_reg_num.0);
            lemma_reads_keep(mid, bb, self.next_reg_num.0, self.next_reg_num.0);
            let o = self.open_regs@;
            let op = ir::Operation::Branch1(dst);
            assert(defs_grow(a, bb));
            assert(defs_grow(a, mid)) by {
                assert forall|r: RegNum| #[trigger] defines(a, r) implies defines(mid, r) by {
                    let (j, p, k) = choose|j: int, p: bool, k: int| #[trigger] def_at(a, j, p, k) == Some(r);
                    if j == s && !p {
                        assert(mid[j].body@[k] == a[j].body@[k]);
                    }
                    assert(def_at(mid, j, p, k) == Some(r));
                }
            }
            assert forall|j: int| #[trigger] operand_at(mid, s as int, false, defs_len(a, s as int, false), j)
                == op_operand(op, j) by {
                assert(mid[s as int].body@[defs_len(a, s as int, false)] == op);
            }
            lemma_add_settled(a, mid, s as int, false, |j: int| op_operand(op, j), o);
            assert(defs_grow(mid, bb)) by {
                assert forall|r: RegNum| #[trigger] defines(mid, r) implies defines(bb, r) by {
                    let (j, p, k) = choose|j: int, p: bool, k: int| #[trigger] def_at(mid, j, p, k) == Some(r);
                    assert(def_at(bb, j, p, k) == Some(r));
                }
            }
            lemma_settled_keep(mid, bb, o, o);
            lemma_env_settled_set(self.env, self.env, Label(ARGS_LABEL_NO), Seq::empty(), Value::LitInt(0), a, bb, o, o);
        }
    }

    /// Ends block `src` with a jump to `br1` where `cond` holds and to `br2` where it does not.
    fn add_branch2_op(&mut self, src: Label, cond: Value, br1: Label, br2: Label)
        requires
            old(self).wf(),
            old(self).valid_label(src),
            old(self).valid_label(br1),
            old(self).valid_label(br2),
            old(self).blocks()[br1.0 as int].phi_set@.len() == 0,
            old(self).blocks()[br2.0 as int].phi_set@.len() == 0,
            value_below(cond, old(self).next_reg()),
            value_settled(old(self).blocks(), old(self).open_regs(), cond),
        ensures
            ops_kept(old(self).blocks(), final(self).blocks()),
            final(self).wf(),
            final(self).open_regs() == old(self).open_regs(),
            defs_grow(old(self).blocks(), final(self).blocks()),
            keeps_old_except(old(self).blocks(), final(self).blocks(), br1, br2),
            final(self).blocks().len() == old(self).blocks().len(),
            final(self).strings() == old(self).strings(),
            final(self).next_reg() == old(self).next_reg(),
            final(self).env == old(self).env,
            br1 != br2 ==> final(self).blocks()[br1.0 as int].predecessors@ == old(self).blocks()[br1.0 as int].predecessors@.push(src)
                && final(self).blocks()[br2.0 as int].predecessors@ == old(self).blocks()[br2.0 as int].predecessors@.push(src),
            forall|r: RegNum| #[trigger] defines(final(self).blocks(), r) == defines(old(self).blocks(), r),
            final(self).blocks()[src.0 as int].body@ == old(self).blocks()[src.0 as int].body@.push(ir::Operation::Branch2(cond, br1, br2)),
    {
        let ghost a = self.blocks@;
        let s = src.0 as usize;
        let mut b = ir::Block { label: Label(0), phi_set: Vec::new(), predecessors: Vec::new(), body: Vec::new() };
        std::mem::swap(&mut b, &mut self.blocks[s]);
        b.body.push(ir::Operation::Branch2(cond, br1, br2));
        std::mem::swap(&mut b, &mut self.blocks[s]);
        let ghost mid = self.blocks@;
        let mut c = ir::Block { label: Label(0), phi_set: Vec::new(), predecessors: Vec::new(), body: Vec::new() };
        std::mem::swap(&mut c, &mut self.blocks[br1.0 as usize]);
        c.predecessors.push(src);
        std::mem::swap(&mut c, &mut self.blocks[br1.0 as usize]);
        let mut e = ir::Block { label: Label(0), phi_set: Vec::new(), predecessors: Vec::new(), body: Vec::new() };
        std::mem::swap(&mut e, &mut self.blocks[br2.0 as usize]);
        e.predecessors.push(src);
        std::mem::swap(&mut e, &mut self.blocks[br2.0 as usize]);
        proof {
            let bb = self.blocks@;
            let last = bb[s as int].body@.len() - 1;
            assert(bb[s as int].body@ =~= a[s as int].body@.push(ir::Operation::Branch2(cond, br1, br2)));
            assert(bb[s as int].body@[last] == ir::Operation::Branch2(cond, br1, br2));
            assert(bb[br1.0 as int].predecessors@.contains(src)) by {
                assert(bb[br1.0 as int].predecessors@[bb[br1.0 as int].predecessors@.len() - 1] == src);
            }
            assert(bb[br2.0 as int].predecessors@.contains(src)) by {
                assert(bb[br2.0 as int].predecessors@[bb[br2.0 as int].predecessors@.len() - 1] == src);
            }
            assert(Label(s as int as u32) == src);
            assert(has_branch_to(bb[s as int].body@, Label(br1.0 as int as u32))) by {
                assert(is_branch_to(bb[s as int].body@[last], Label(br1.0 as int as u32)));
            }
            assert(has_branch_to(bb[s as int].body@, Label(br2.0 as int as u32))) by {
                assert(is_branch_to(bb[s as int].body@[last], Label(br2.0 as int as u32)));
            }
            lemma_cfg_grow(a, bb);
            lemma_phis_match_keep(a, bb);
            assert(def_at(bb, s as int, false, defs_len(a, s as int, false)) == None::<RegNum>);
            lemma_add_def(a, bb, s as int, false, None);
            lemma_add_op_reads(a, mid, s as int, ir::Operation::Branch2(cond, br1, br2), self.next_reg_num.0);
            lemma_reads_keep(mid, bb, self.next_reg_num.0, self.next_reg_num.0);
            let o = self.open_regs@;
            let op = ir::Operation::Branch2(cond, br1, br2);
            assert(defs_grow(a, mid)) by {
                assert forall|r: RegNum| #[trigger] defines(a, r) implies defines(mid, r) by {
                    let (j, p, k) = choose|j: int, p: bool, k: int| #[trigger] def_at(a, j, p, k) == Some(r);
                    if j == s && !p {
                        assert(mid[j].body@[k] == a[j].body@[k]);
                    }
                    assert(def_at(mid, j, p, k) == Some(r));
                }
            }
            assert forall|j: int| #[trigger] operand_at(mid, s as int, false, defs_len(a, s as int, false), j)
                == op_operand(op, j) by {
                assert(mid[s as int].body@[defs_len(a, s as int, false)] == op);
            }
            lemma_add_settled(a, mid, s as int, false, |j: int| op_operand(op, j), o);
            assert(defs_grow(mid, bb)) by {
                assert forall|r: RegNum| #[trigger] defines(mid, r) implies defines(bb, r) by {
                    let (j, p, k) = choose|j: int, p: bool, k: int| #[trigger] def_at(mid, j, p, k) == Some(r);
                    assert(def_at(bb, j, p, k) == Some(r));
                }
            }
            lemma_settled_keep(mid, bb, o, o);
            lemma_env_settled_set(self.env, self.env, Label(ARGS_LABEL_NO), Seq::empty(), Value::LitInt(0), a, bb, o, o);
        }
    }

    /// The global string holding `string`, added to the table if it is not there yet.
    fn get_global_string(&mut self, string: &str) -> (res: Value)
        requires
            old(self).wf(),
        ensures
            ops_kept(old(self).blocks(), final(self).blocks()),
            final(self).open_regs() == old(self).open_regs(),
            final(self).wf(),
            final(self).blocks() == old(self).blocks(),
            old(self).strings()@.contains_key(string@) ==> final(self).strings() == old(self).strings()
                && res == Value::GlobalRegister(old(self).strings()@[string@]),
            !old(self).strings()@.contains_key(string@) ==> final(self).strings().entries().len()
                == old(self).strings().entries().len() + 1
                && final(self).strings().entries().drop_last() == old(self).strings().entries()
                && final(self).strings().entries().last().0@ == string@
                && final(self).strings().entries().last().1 == GlobalStrNum(old(self).strings().entries().len() as u32),
            final(self).strings()@.contains_key(string@),
            res == Value::GlobalRegister(final(self).strings()@[string@]),
            strings_extend(old(self).strings(), final(self).strings()),
            final(self).next_reg() == old(self).next_reg(),
            final(self).env == old(self).env,
    {
        match self.global_strings.get(string) {
            Some(reg) => {
                return Value::GlobalRegister(*reg);
            },
            None => {},
        }
        let reg = GlobalStrNum(self.global_strings.len() as u32);
        self.global_strings.insert(string.to_owned(), reg);
        proof {
            assert(self.global_strings.entries().drop_last() =~= old(self).global_strings.entries());
            assert forall|i: int| 0 <= i < self.global_strings.entries().len()
                implies (#[trigger] self.global_strings.entries()[i]).1.0 == i as u32 by {
                if i < old(self).global_strings.entries().len() {
                    assert(self.global_strings.entries()[i] == old(self).global_strings.entries()[i]);
                }
            }
        }
        Value::GlobalRegister(reg)
    }
}


/// The number of nodes of an expression.
pub open spec fn expr_size(e: ast::InnerExpr) -> nat
    decreases e,
{
    match e {
        ast::InnerExpr::FunCall { args, .. } => 1 + args_size(args@),
        ast::InnerExpr::BinaryOp(l, _, r) => 1 + expr_size(l.inner) + expr_size(r.inner),
        ast::InnerExpr::UnaryOp(_, x) => 1 + expr_size(x.inner),
        _ => 1,
    }
}

pub open spec fn args_size(args: Seq<Box<ast::Expr>>) -> nat
    decreases args,
{
    if args.len() == 0 {
        0
    } else {
        args_size(args.drop_last()) + expr_size(args.last().inner)
    }
}

/// The IR type of the value that an expression computes, where the code generator handles
/// it: the variables `vars`, whose values have the types that `vars` gives, literals, calls of
/// the functions `fns`, arithmetic on integers, string concatenation, comparisons of integers
/// and booleans, equality of strings, and the logical operators.
pub open spec fn cg_type(fns: Map<Seq<char>, FunModel>, vars: Map<Seq<char>, TypeModel>, e: ast::InnerExpr) -> Option<TypeModel>
    decreases e, 0nat,
{
    match e {
        ast::InnerExpr::LitVar(name) => if vars.contains_key(name@) {
            Some(vars[name@])
        } else {
            None
        },
        ast::InnerExpr::LitInt(_) => Some(TypeModel::Int),
        ast::InnerExpr::LitBool(_) => Some(TypeModel::Bool),
        ast::InnerExpr::LitStr(s) => if crate::text::byte_len(s@) + 1 < usize::MAX {
            Some(TypeModel::Ptr(Box::new(TypeModel::Char)))
        } else {
            None
        },
        ast::InnerExpr::LitNull => Some(TypeModel::Ptr(Box::new(TypeModel::Void))),
        ast::InnerExpr::FunCall { function_name, args } => if fns.contains_key(function_name.inner@) && args_ok(fns, vars, args@) {
            Some(spec_from_ast(fns[function_name.inner@].ret))
        } else {
            None
        },
        ast::InnerExpr::BinaryOp(l, op, r) => match op {
            ast::BinaryOp::And | ast::BinaryOp::Or => if cond_ok(fns, vars, l.inner) && cond_ok(fns, vars, r.inner) {
                Some(TypeModel::Bool)
            } else {
                None
            },
            ast::BinaryOp::Add | ast::BinaryOp::Sub | ast::BinaryOp::Mul | ast::BinaryOp::Div | ast::BinaryOp::Mod =>
                match (cg_type(fns, vars, l.inner), cg_type(fns, vars, r.inner)) {
                    (Some(TypeModel::Int), Some(_)) => Some(TypeModel::Int),
                    (Some(TypeModel::Ptr(sub)), Some(_)) => Some(TypeModel::Ptr(sub)),
                    _ => None,
                },
            _ => match (cg_type(fns, vars, l.inner), cg_type(fns, vars, r.inner)) {
                (Some(TypeModel::Int), Some(_)) => Some(TypeModel::Bool),
                (Some(TypeModel::Bool), Some(_)) => Some(TypeModel::Bool),
                (Some(TypeModel::Ptr(sub)), Some(_)) => if *sub == TypeModel::Char && (op is EQ || op is NE) {
                    Some(TypeModel::Bool)
                } else {
                    None
                },
                _ => None,
            },
        },
        ast::InnerExpr::UnaryOp(op, x) => match cg_type(fns, vars, x.inner) {
            Some(_) => match op.inner {
                ast::InnerUnaryOp::IntNeg => Some(TypeModel::Int),
                ast::InnerUnaryOp::BoolNeg => Some(TypeModel::Bool),
            },
            None => None,
        },
        _ => None,
    }
}

/// Every argument is an expression that the code generator handles.
pub open spec fn args_ok(fns: Map<Seq<char>, FunModel>, vars: Map<Seq<char>, TypeModel>, args: Seq<Box<ast::Expr>>) -> bool
    decreases args, 0nat,
{
    if args.len() == 0 {
        true
    } else {
        args_ok(fns, vars, args.drop_last()) && cg_type(fns, vars, args.last().inner) is Some
    }
}

/// A condition, over the variables `vars`, that the code generator turns into jumps.
pub open spec fn cond_ok(fns: Map<Seq<char>, FunModel>, vars: Map<Seq<char>, TypeModel>, e: ast::InnerExpr) -> bool
    decreases e, 1nat,
{
    match e {
        ast::InnerExpr::BinaryOp(l, ast::BinaryOp::And, r) => cond_ok(fns, vars, l.inner) && cond_ok(fns, vars, r.inner),
        ast::InnerExpr::BinaryOp(l, ast::BinaryOp::Or, r) => cond_ok(fns, vars, l.inner) && cond_ok(fns, vars, r.inner),
        ast::InnerExpr::UnaryOp(ast::ItemWithSpan { inner: ast::InnerUnaryOp::BoolNeg, .. }, x) => cond_ok(fns, vars, x.inner),
        _ => cg_type(fns, vars, e) is Some,
    }
}

/// Every expression has at least one node.
proof fn lemma_expr_size_pos(e: ast::InnerExpr)
    ensures
        expr_size(e) >= 1,
{
}

/// The size of the first `i` arguments grows with `i` and never passes that of all of them.
proof fn lemma_args_size_take(args: Seq<Box<ast::Expr>>, i: int)
    requires
        0 <= i <= args.len(),
    ensures
        args_size(args.take(i)) <= args_size(args),
        i < args.len() ==> args_size(args.take(i + 1)) == args_size(args.take(i)) + expr_size(args[i].inner),
    decreases args.len() - i,
{
    if i < args.len() {
        assert(args.take(i + 1).drop_last() =~= args.take(i));
        lemma_args_size_take(args, i + 1);
    } else {
        assert(args.take(i) =~= args);
    }
}

/// Every argument of a list the code generator handles is handled.
proof fn lemma_args_ok_index(fns: Map<Seq<char>, FunModel>, vars: Map<Seq<char>, TypeModel>, args: Seq<Box<ast::Expr>>, i: int)
    requires
        args_ok(fns, vars, args),
        0 <= i < args.len(),
    ensures
        cg_type(fns, vars, args[i].inner) is Some,
    decreases args.len(),
{
    if i < args.len() - 1 {
        lemma_args_ok_index(fns, vars, args.drop_last(), i);
    }
}

/// The number of variables of a declaration and of the nodes of their initial values.
pub open spec fn decl_size(items: Seq<(ast::Ident, Option<Box<ast::Expr>>)>) -> nat
    decreases items.len(),
{
    if items.len() == 0 {
        0
    } else {
        decl_size(items.drop_last()) + 1 + match items.last().1 {
            Some(e) => expr_size(e.inner),
            None => 0,
        }
    }
}

/// The number of nodes of a statement, its expressions' included.
pub open spec fn stmt_size(s: ast::InnerStmt) -> nat
    decreases s,
{
    match s {
        ast::InnerStmt::Block(b) => 1 + stmts_size(b.stmts@),
        ast::InnerStmt::Decl { var_items, .. } => 1 + decl_size(var_items@),
        ast::InnerStmt::Assign(_, rhs) => 1 + expr_size(rhs.inner),
        ast::InnerStmt::Expr(e) => 1 + expr_size(e.inner),
        ast::InnerStmt::Ret(Some(e)) => 1 + expr_size(e.inner),
        ast::InnerStmt::Cond { cond, true_branch, false_branch } => 1 + expr_size(cond.inner)
            + stmts_size(true_branch.stmts@) + match false_branch {
                Some(b) => stmts_size(b.stmts@),
                None => 0,
            },
        ast::InnerStmt::While(cond, body) => 1 + expr_size(cond.inner) + stmts_size(body.stmts@),
        _ => 1,
    }
}

pub open spec fn stmts_size(ss: Seq<Box<ast::Stmt>>) -> nat
    decreases ss,
{
    if ss.len() == 0 {
        0
    } else {
        stmts_size(ss.drop_last()) + stmt_size(ss.last().inner)
    }
}

/// A bound on the registers that the code of a statement takes, where at most `vmax`
/// variables are in scope: a conditional or a loop may take one for each of them besides
/// those of its parts.
pub open spec fn stmt_regs(s: ast::InnerStmt, vmax: nat) -> nat
    decreases s,
{
    match s {
        ast::InnerStmt::Block(b) => 1 + stmts_regs(b.stmts@, vmax),
        ast::InnerStmt::Cond { cond, true_branch, false_branch } => 1 + expr_size(cond.inner) + vmax
            + stmts_regs(true_branch.stmts@, vmax) + match false_branch {
                Some(b) => stmts_regs(b.stmts@, vmax),
                None => 0,
            },
        ast::InnerStmt::While(cond, body) => 1 + expr_size(cond.inner) + vmax + stmts_regs(body.stmts@, vmax),
        _ => stmt_size(s),
    }
}

pub open spec fn stmts_regs(ss: Seq<Box<ast::Stmt>>, vmax: nat) -> nat
    decreases ss,
{
    if ss.len() == 0 {
        0
    } else {
        stmts_regs(ss.drop_last(), vmax) + stmt_regs(ss.last().inner, vmax)
    }
}

/// What is known at a point of a body about the code to generate: the variables in scope
/// with the IR types of their values, the names declared so far in the innermost block, and
/// whether every statement so far is one that the code generator is sure to handle.
pub struct CgScope {
    pub vars: Map<Seq<char>, TypeModel>,
    pub declared: Set<Seq<char>>,
    pub ok: bool,
}

/// The scope at the start of a nested block: the same variables, none declared yet.
pub open spec fn inner_scope(sc: CgScope) -> CgScope {
    CgScope { vars: sc.vars, declared: Set::empty(), ok: sc.ok }
}

/// A scope that promises nothing.
pub open spec fn cg_unknown() -> CgScope {
    CgScope { vars: Map::empty(), declared: Set::empty(), ok: false }
}

/// The scope after the variables of a declaration of type `t`, one by one: each initial value
/// is an expression the code generator handles, of the variable's type, and computed before
/// the variable is declared; a variable without one must be an `int`, a `boolean` or a
/// `string`; and no name is declared twice in a block.
pub open spec fn cg_decl(
    fns: Map<Seq<char>, FunModel>,
    sc: CgScope,
    t: ast::TypeModel,
    items: Seq<(ast::Ident, Option<Box<ast::Expr>>)>,
) -> CgScope
    decreases items.len(),
{
    if items.len() == 0 {
        sc
    } else {
        let sc1 = cg_decl(fns, sc, t, items.drop_last());
        let name = items.last().0.inner@;
        let init_ok = match items.last().1 {
            Some(e) => cg_type(fns, sc1.vars, e.inner) == Some(spec_from_ast(t)),
            None => t is Int || t is Bool || t is Str,
        };
        CgScope {
            vars: sc1.vars.insert(name, spec_from_ast(t)),
            declared: sc1.declared.insert(name),
            ok: sc1.ok && init_ok && !sc1.declared.contains(name),
        }
    }
}

/// The scope after statement `s`, which the code generator is sure to handle where it is an
/// empty statement, a block of such statements, a declaration, an assignment of a value of
/// the variable's type, an increment or decrement of an `int` variable, a return, an
/// expression statement, a loop, or a conditional whose branches declare nothing at their
/// top level and, where it has no false branch, whose condition jumps once to the block after
/// it; each of its expressions must be one it handles.
pub open spec fn cg_stmt(fns: Map<Seq<char>, FunModel>, sc: CgScope, s: ast::InnerStmt) -> CgScope
    decreases s,
{
    match s {
        ast::InnerStmt::Empty => sc,
        ast::InnerStmt::Block(b) => CgScope { ok: cg_stmts(fns, inner_scope(sc), b.stmts@).ok, ..sc },
        ast::InnerStmt::Decl { var_type, var_items } => cg_decl(fns, sc, var_type.inner@, var_items@),
        ast::InnerStmt::Assign(lhs, rhs) => CgScope {
            ok: sc.ok && (lhs.inner matches ast::InnerExpr::LitVar(n) && sc.vars.contains_key(n@)
                && cg_type(fns, sc.vars, rhs.inner) == Some(sc.vars[n@])),
            ..sc
        },
        ast::InnerStmt::Incr(e) => CgScope {
            ok: sc.ok && (e.inner matches ast::InnerExpr::LitVar(n) && sc.vars.contains_key(n@)
                && sc.vars[n@] == TypeModel::Int),
            ..sc
        },
        ast::InnerStmt::Decr(e) => CgScope {
            ok: sc.ok && (e.inner matches ast::InnerExpr::LitVar(n) && sc.vars.contains_key(n@)
                && sc.vars[n@] == TypeModel::Int),
            ..sc
        },
        ast::InnerStmt::Ret(None) => sc,
        ast::InnerStmt::Ret(Some(e)) => CgScope { ok: sc.ok && cg_type(fns, sc.vars, e.inner) is Some, ..sc },
        ast::InnerStmt::Expr(e) => CgScope { ok: sc.ok && cg_type(fns, sc.vars, e.inner) is Some, ..sc },
        ast::InnerStmt::While(cond, body) => match cond.inner {
            ast::InnerExpr::LitBool(false) => sc,
            ast::InnerExpr::LitBool(true) => CgScope { ok: cg_stmts(fns, inner_scope(sc), body.stmts@).ok, ..sc },
            _ => CgScope {
                ok: cond_ok(fns, sc.vars, cond.inner) && cg_stmts(fns, inner_scope(sc), body.stmts@).ok,
                ..sc
            },
        },
        ast::InnerStmt::Cond { cond, true_branch, false_branch } => match cond.inner {
            ast::InnerExpr::LitBool(true) => CgScope { ok: cg_stmts(fns, inner_scope(sc), true_branch.stmts@).ok, ..sc },
            ast::InnerExpr::LitBool(false) => match false_branch {
                Some(b) => CgScope { ok: cg_stmts(fns, inner_scope(sc), b.stmts@).ok, ..sc },
                None => sc,
            },
            _ => match false_branch {
                Some(b) => CgScope {
                    ok: cond_ok(fns, sc.vars, cond.inner)
                        && cg_stmts(fns, inner_scope(sc), true_branch.stmts@).ok
                        && cg_stmts(fns, inner_scope(sc), true_branch.stmts@).declared == Set::<Seq<char>>::empty()
                        && cg_stmts(fns, inner_scope(sc), b.stmts@).ok
                        && cg_stmts(fns, inner_scope(sc), b.stmts@).declared == Set::<Seq<char>>::empty(),
                    ..sc
                },
                None => CgScope {
                    ok: cond_ok(fns, sc.vars, cond.inner) && false_jumps(cond.inner) == 1
                        && cg_stmts(fns, inner_scope(sc), true_branch.stmts@).ok
                        && cg_stmts(fns, inner_scope(sc), true_branch.stmts@).declared == Set::<Seq<char>>::empty(),
                    ..sc
                },
            },
        },
        _ => CgScope { ok: false, ..sc },
    }
}

/// The scope after a list of statements.
pub open spec fn cg_stmts(fns: Map<Seq<char>, FunModel>, sc: CgScope, ss: Seq<Box<ast::Stmt>>) -> CgScope
    decreases ss,
{
    if ss.len() == 0 {
        sc
    } else {
        cg_stmt(fns, cg_stmts(fns, sc, ss.drop_last()), ss.last().inner)
    }
}

proof fn lemma_stmts_size_take(ss: Seq<Box<ast::Stmt>>, i: int)
    requires
        0 <= i <= ss.len(),
    ensures
        stmts_size(ss.take(i)) <= stmts_size(ss),
        i < ss.len() ==> stmts_size(ss.take(i + 1)) == stmts_size(ss.take(i)) + stmt_size(ss[i].inner),
    decreases ss.len() - i,
{
    if i < ss.len() {
        assert(ss.take(i + 1).drop_last() =~= ss.take(i));
        lemma_stmts_size_take(ss, i + 1);
    } else {
        assert(ss.take(i) =~= ss);
    }
}

proof fn lemma_stmts_regs_take(ss: Seq<Box<ast::Stmt>>, vmax: nat, i: int)
    requires
        0 <= i <= ss.len(),
    ensures
        stmts_regs(ss.take(i), vmax) <= stmts_regs(ss, vmax),
        i < ss.len() ==> stmts_regs(ss.take(i + 1), vmax) == stmts_regs(ss.take(i), vmax) + stmt_regs(ss[i].inner, vmax),
    decreases ss.len() - i,
{
    if i < ss.len() {
        assert(ss.take(i + 1).drop_last() =~= ss.take(i));
        lemma_stmts_regs_take(ss, vmax, i + 1);
    } else {
        assert(ss.take(i) =~= ss);
    }
}

proof fn lemma_decl_size_take(items: Seq<(ast::Ident, Option<Box<ast::Expr>>)>, i: int)
    requires
        0 <= i <= items.len(),
    ensures
        decl_size(items.take(i)) <= decl_size(items),
        i < items.len() ==> decl_size(items.take(i + 1)) == decl_size(items.take(i)) + 1 + match items[i].1 {
            Some(e) => expr_size(e.inner),
            None => 0,
        },
    decreases items.len() - i,
{
    if i < items.len() {
        assert(items.take(i + 1).drop_last() =~= items.take(i));
        lemma_decl_size_take(items, i + 1);
    } else {
        assert(items.take(i) =~= items);
    }
}

/// Once a declaration goes wrong, it stays wrong.
proof fn lemma_cg_decl_sticky(fns: Map<Seq<char>, FunModel>, sc: CgScope, t: ast::TypeModel, items: Seq<(ast::Ident, Option<Box<ast::Expr>>)>)
    ensures
        cg_decl(fns, sc, t, items).ok ==> sc.ok,
    decreases items.len(),
{
    if items.len() > 0 {
        lemma_cg_decl_sticky(fns, sc, t, items.drop_last());
    }
}

/// Once a statement goes wrong, it stays wrong.
proof fn lemma_cg_stmt_sticky(fns: Map<Seq<char>, FunModel>, sc: CgScope, s: ast::InnerStmt)
    ensures
        cg_stmt(fns, sc, s).ok ==> sc.ok,
    decreases s,
{
    match s {
        ast::InnerStmt::Decl { var_type, var_items } => lemma_cg_decl_sticky(fns, sc, var_type.inner@, var_items@),
        ast::InnerStmt::Block(b) => lemma_cg_stmts_sticky(fns, inner_scope(sc), b.stmts@),
        ast::InnerStmt::While(_, body) => lemma_cg_stmts_sticky(fns, inner_scope(sc), body.stmts@),
        ast::InnerStmt::Cond { true_branch, false_branch, .. } => {
            lemma_cg_stmts_sticky(fns, inner_scope(sc), true_branch.stmts@);
            if let Some(b) = false_branch {
                lemma_cg_stmts_sticky(fns, inner_scope(sc), b.stmts@);
            }
        },
        _ => {},
    }
}

proof fn lemma_cg_stmts_sticky(fns: Map<Seq<char>, FunModel>, sc: CgScope, ss: Seq<Box<ast::Stmt>>)
    ensures
        cg_stmts(fns, sc, ss).ok ==> sc.ok,
    decreases ss,
{
    if ss.len() > 0 {
        lemma_cg_stmt_sticky(fns, cg_stmts(fns, sc, ss.drop_last()), ss.last().inner);
        lemma_cg_stmts_sticky(fns, sc, ss.drop_last());
    }
}

/// The names declared in a block so far only grow, and a variable whose name is not among
/// them after a declaration is in scope, with its type, exactly when it was before.
proof fn lemma_cg_decl_undeclared(fns: Map<Seq<char>, FunModel>, sc: CgScope, t: ast::TypeModel, items: Seq<(ast::Ident, Option<Box<ast::Expr>>)>)
    ensures
        sc.declared.subset_of(cg_decl(fns, sc, t, items).declared),
        forall|n: Seq<char>| !cg_decl(fns, sc, t, items).declared.contains(n)
            ==> (#[trigger] cg_decl(fns, sc, t, items).vars.contains_key(n)) == sc.vars.contains_key(n)
            && (sc.vars.contains_key(n) ==> cg_decl(fns, sc, t, items).vars[n] == sc.vars[n]),
    decreases items.len(),
{
    if items.len() > 0 {
        lemma_cg_decl_undeclared(fns, sc, t, items.drop_last());
    }
}

/// The same for a statement.
proof fn lemma_cg_stmt_undeclared(fns: Map<Seq<char>, FunModel>, sc: CgScope, s: ast::InnerStmt)
    ensures
        sc.declared.subset_of(cg_stmt(fns, sc, s).declared),
        forall|n: Seq<char>| !cg_stmt(fns, sc, s).declared.contains(n)
            ==> (#[trigger] cg_stmt(fns, sc, s).vars.contains_key(n)) == sc.vars.contains_key(n)
            && (sc.vars.contains_key(n) ==> cg_stmt(fns, sc, s).vars[n] == sc.vars[n]),
{
    match s {
        ast::InnerStmt::Decl { var_type, var_items } => {
            assert(cg_stmt(fns, sc, s) == cg_decl(fns, sc, var_type.inner@, var_items@));
            lemma_cg_decl_undeclared(fns, sc, var_type.inner@, var_items@);
        },
        _ => {
            assert(cg_stmt(fns, sc, s).vars == sc.vars && cg_stmt(fns, sc, s).declared == sc.declared);
        },
    }
}

/// The same for a list of statements.
proof fn lemma_cg_stmts_undeclared(fns: Map<Seq<char>, FunModel>, sc: CgScope, ss: Seq<Box<ast::Stmt>>)
    ensures
        sc.declared.subset_of(cg_stmts(fns, sc, ss).declared),
        forall|n: Seq<char>| !cg_stmts(fns, sc, ss).declared.contains(n)
            ==> (#[trigger] cg_stmts(fns, sc, ss).vars.contains_key(n)) == sc.vars.contains_key(n)
            && (sc.vars.contains_key(n) ==> cg_stmts(fns, sc, ss).vars[n] == sc.vars[n]),
    decreases ss.len(),
{
    if ss.len() > 0 {
        lemma_cg_stmts_undeclared(fns, sc, ss.drop_last());
        lemma_cg_stmt_undeclared(fns, cg_stmts(fns, sc, ss.drop_last()), ss.last().inner);
    }
}

/// A block that declares nothing ends with the variables it started with.
proof fn lemma_cg_stmts_same_vars(fns: Map<Seq<char>, FunModel>, sc: CgScope, ss: Seq<Box<ast::Stmt>>)
    requires
        cg_stmts(fns, sc, ss).declared == Set::<Seq<char>>::empty(),
    ensures
        cg_stmts(fns, sc, ss).vars == sc.vars,
{
    lemma_cg_stmts_undeclared(fns, sc, ss);
    assert(cg_stmts(fns, sc, ss).vars =~= sc.vars);
}

/// The scope after the first `i + 1` statements is that after the first `i`, then the next
/// one; where all statements are handled, so are the first `i`.
proof fn lemma_cg_stmts_take(fns: Map<Seq<char>, FunModel>, sc: CgScope, ss: Seq<Box<ast::Stmt>>, i: int)
    requires
        0 <= i <= ss.len(),
    ensures
        i < ss.len() ==> cg_stmts(fns, sc, ss.take(i + 1)) == cg_stmt(fns, cg_stmts(fns, sc, ss.take(i)), ss[i].inner),
        cg_stmts(fns, sc, ss).ok ==> cg_stmts(fns, sc, ss.take(i)).ok,
        cg_stmts(fns, sc, ss.take(i)).declared.subset_of(cg_stmts(fns, sc, ss).declared),
    decreases ss.len() - i,
{
    if i < ss.len() {
        assert(ss.take(i + 1).drop_last() =~= ss.take(i));
        lemma_cg_stmts_take(fns, sc, ss, i + 1);
        lemma_cg_stmt_sticky(fns, cg_stmts(fns, sc, ss.take(i)), ss[i].inner);
        lemma_cg_stmt_undeclared(fns, cg_stmts(fns, sc, ss.take(i)), ss[i].inner);
    } else {
        assert(ss.take(i) =~= ss);
    }
}

/// A declaration adds at most one variable for each of its items; the variables in scope
/// stay finitely many, and none goes out of scope.
proof fn lemma_cg_decl_vcount(fns: Map<Seq<char>, FunModel>, sc: CgScope, t: ast::TypeModel, items: Seq<(ast::Ident, Option<Box<ast::Expr>>)>)
    requires
        sc.vars.dom().finite(),
    ensures
        cg_decl(fns, sc, t, items).vars.dom().finite(),
        cg_decl(fns, sc, t, items).vars.dom().len() <= sc.vars.dom().len() + decl_size(items),
        sc.vars.dom().subset_of(cg_decl(fns, sc, t, items).vars.dom()),
    decreases items.len(),
{
    if items.len() > 0 {
        lemma_cg_decl_vcount(fns, sc, t, items.drop_last());
        let sc1 = cg_decl(fns, sc, t, items.drop_last());
        let name = items.last().0.inner@;
        assert(sc1.vars.insert(name, spec_from_ast(t)).dom() =~= sc1.vars.dom().insert(name));
        vstd::set::axiom_set_insert_len(sc1.vars.dom(), name);
    }
}

/// A statement adds at most one variable for each node; the variables in scope stay finitely
/// many, and none goes out of scope.
proof fn lemma_cg_stmt_vcount(fns: Map<Seq<char>, FunModel>, sc: CgScope, s: ast::InnerStmt)
    requires
        sc.vars.dom().finite(),
    ensures
        cg_stmt(fns, sc, s).vars.dom().finite(),
        cg_stmt(fns, sc, s).vars.dom().len() <= sc.vars.dom().len() + stmt_size(s),
        sc.vars.dom().subset_of(cg_stmt(fns, sc, s).vars.dom()),
{
    match s {
        ast::InnerStmt::Decl { var_type, var_items } => lemma_cg_decl_vcount(fns, sc, var_type.inner@, var_items@),
        _ => {},
    }
}

/// The same for a list of statements.
proof fn lemma_cg_stmts_vcount(fns: Map<Seq<char>, FunModel>, sc: CgScope, ss: Seq<Box<ast::Stmt>>)
    requires
        sc.vars.dom().finite(),
    ensures
        cg_stmts(fns, sc, ss).vars.dom().finite(),
        cg_stmts(fns, sc, ss).vars.dom().len() <= sc.vars.dom().len() + stmts_size(ss),
        sc.vars.dom().subset_of(cg_stmts(fns, sc, ss).vars.dom()),
    decreases ss.len(),
{
    if ss.len() > 0 {
        lemma_cg_stmts_vcount(fns, sc, ss.drop_last());
        lemma_cg_stmt_vcount(fns, cg_stmts(fns, sc, ss.drop_last()), ss.last().inner);
    }
}

/// The same for the variables of a declaration.
proof fn lemma_cg_decl_take(fns: Map<Seq<char>, FunModel>, sc: CgScope, t: ast::TypeModel, items: Seq<(ast::Ident, Option<Box<ast::Expr>>)>, i: int)
    requires
        0 <= i <= items.len(),
    ensures
        i < items.len() ==> cg_decl(fns, sc, t, items.take(i + 1)) == ({
            let sc1 = cg_decl(fns, sc, t, items.take(i));
            let name = items[i].0.inner@;
            let init_ok = match items[i].1 {
                Some(e) => cg_type(fns, sc1.vars, e.inner) == Some(spec_from_ast(t)),
                None => t is Int || t is Bool || t is Str,
            };
            CgScope {
                vars: sc1.vars.insert(name, spec_from_ast(t)),
                declared: sc1.declared.insert(name),
                ok: sc1.ok && init_ok && !sc1.declared.contains(name),
            }
        }),
        cg_decl(fns, sc, t, items).ok ==> cg_decl(fns, sc, t, items.take(i)).ok,
        cg_decl(fns, sc, t, items.take(i)).declared.subset_of(cg_decl(fns, sc, t, items).declared),
    decreases items.len() - i,
{
    if i < items.len() {
        assert(items.take(i + 1).drop_last() =~= items.take(i));
        lemma_cg_decl_take(fns, sc, t, items, i + 1);
    } else {
        assert(items.take(i) =~= items);
    }
}

/// The number of jumps to the false target that a condition becomes.
pub open spec fn false_jumps(e: ast::InnerExpr) -> nat
    decreases e,
{
    match e {
        ast::InnerExpr::BinaryOp(l, ast::BinaryOp::And, r) => false_jumps(l.inner) + false_jumps(r.inner),
        ast::InnerExpr::BinaryOp(_, ast::BinaryOp::Or, r) => false_jumps(r.inner),
        ast::InnerExpr::UnaryOp(ast::ItemWithSpan { inner: ast::InnerUnaryOp::BoolNeg, .. }, x) => true_jumps(x.inner),
        _ => 1,
    }
}

/// The number of jumps to the true target that a condition becomes.
pub open spec fn true_jumps(e: ast::InnerExpr) -> nat
    decreases e,
{
    match e {
        ast::InnerExpr::BinaryOp(_, ast::BinaryOp::And, r) => true_jumps(r.inner),
        ast::InnerExpr::BinaryOp(l, ast::BinaryOp::Or, r) => true_jumps(l.inner) + true_jumps(r.inner),
        ast::InnerExpr::UnaryOp(ast::ItemWithSpan { inner: ast::InnerUnaryOp::BoolNeg, .. }, x) => false_jumps(x.inner),
        _ => 1,
    }
}

/// Block `t` of `b` has the predecessors it had in `a`, then `k` more, each of which sees in
/// `env` what frame `cur` sees.
pub open spec fn jumps_added(a: Seq<ir::Block>, b: Seq<ir::Block>, t: Label, k: nat, env: Env, cur: Label) -> bool {
    &&& b[t.0 as int].predecessors@.len() == a[t.0 as int].predecessors@.len() + k
    &&& forall|j: int| 0 <= j < a[t.0 as int].predecessors@.len()
            ==> #[trigger] b[t.0 as int].predecessors@[j] == a[t.0 as int].predecessors@[j]
    &&& forall|j: int| a[t.0 as int].predecessors@.len() <= j < b[t.0 as int].predecessors@.len()
            ==> env.sees_same(#[trigger] b[t.0 as int].predecessors@[j], cur)
}

/// Orders the two ways an expression is compiled, for termination: a conjunction or
/// disjunction is compiled as a value through its branching form, anything else in branching
/// form through its value.
pub open spec fn expr_rank(e: ast::InnerExpr) -> nat {
    match e {
        ast::InnerExpr::BinaryOp(_, ast::BinaryOp::And, _) => 1,
        ast::InnerExpr::BinaryOp(_, ast::BinaryOp::Or, _) => 1,
        _ => 0,
    }
}

pub open spec fn cond_rank(e: ast::InnerExpr) -> nat {
    match e {
        ast::InnerExpr::BinaryOp(_, ast::BinaryOp::And, _) => 0,
        ast::InnerExpr::BinaryOp(_, ast::BinaryOp::Or, _) => 0,
        _ => 1,
    }
}

fn arith_op(op: ast::BinaryOp) -> (res: ir::ArithOp)
    requires
        op is Add || op is Sub || op is Mul || op is Div || op is Mod,
    ensures
        op is Add ==> res is Add,
        op is Sub ==> res is Sub,
        op is Mul ==> res is Mul,
        op is Div ==> res is Div,
        op is Mod ==> res is Mod,
        res == spec_arith_op(op),
{
    match op {
        ast::BinaryOp::Add => ir::ArithOp::Add,
        ast::BinaryOp::Sub => ir::ArithOp::Sub,
        ast::BinaryOp::Mul => ir::ArithOp::Mul,
        ast::BinaryOp::Div => ir::ArithOp::Div,
        _ => ir::ArithOp::Mod,
    }
}

fn compare_op(op: ast::BinaryOp) -> (res: ir::CmpOp)
    requires
        op is LT || op is LE || op is GT || op is GE || op is EQ || op is NE,
    ensures
        op is LT ==> res is LT,
        op is LE ==> res is LE,
        op is GT ==> res is GT,
        op is GE ==> res is GE,
        op is EQ ==> res is EQ,
        op is NE ==> res is NE,
        res == spec_compare_op(op),
{
    match op {
        ast::BinaryOp::LT => ir::CmpOp::LT,
        ast::BinaryOp::LE => ir::CmpOp::LE,
        ast::BinaryOp::GT => ir::CmpOp::GT,
        ast::BinaryOp::GE => ir::CmpOp::GE,
        ast::BinaryOp::EQ => ir::CmpOp::EQ,
        _ => ir::CmpOp::NE,
    }
}

/// `op` returns what the code in `blocks` computes for `opt`: nothing where there is no
/// expression or its value is of type `void`, else that value.
pub open spec fn returns_value(
    vals: spec_fn(Seq<char>) -> Option<ir::ValueModel>,
    blocks: Seq<ir::Block>,
    opt: Option<Box<ast::Expr>>,
    op: ir::Operation,
) -> bool {
    op matches ir::Operation::Return(rv) && match opt {
        None => rv is None,
        Some(e) => exists|v: Value| #[trigger] computes(vals, blocks, e.inner, v)
            && rv == (if v matches Value::Register(_, t) && t@ is Void { None } else { Some(v) }),
    }
}

/// What a statement that holds no other statement leaves, where it is compiled from block
/// `cur` with the variables' values `vals` and `next` as the next free register, and gives
/// `res`, with `blocks` and `env` after it: a `return` ends some block with a `Return` of the
/// value computed for its expression, and control goes nowhere after it; `x++` and `x--` end
/// block `cur` with the addition or subtraction of 1 to the value of `x` into a new register,
/// which becomes the value of `x`, and control stays in `cur`; `x = e` gives `x` the value
/// computed for `e`.
pub open spec fn stmt_effect(
    vals: spec_fn(Seq<char>) -> Option<ir::ValueModel>,
    next: u32,
    cur: Label,
    s: ast::InnerStmt,
    res: Option<Label>,
    blocks: Seq<ir::Block>,
    env: Env,
) -> bool {
    match s {
        ast::InnerStmt::Ret(opt) => res matches Some(l) ==> l.0 == UNREACHABLE_LABEL_NO
            && exists|at: int| 0 <= at < blocks.len() && blocks[at].body@.len() > 0
                && #[trigger] returns_value(vals, blocks, opt, blocks[at].body@.last()),
        ast::InnerStmt::Incr(e) => e.inner matches ast::InnerExpr::LitVar(x) ==> (res matches Some(l) ==> l == cur
            && step_effect(vals, next, cur, x@, ir::ArithOp::Add, blocks, env)),
        ast::InnerStmt::Decr(e) => e.inner matches ast::InnerExpr::LitVar(x) ==> (res matches Some(l) ==> l == cur
            && step_effect(vals, next, cur, x@, ir::ArithOp::Sub, blocks, env)),
        ast::InnerStmt::Assign(lhs, rhs) => lhs.inner matches ast::InnerExpr::LitVar(x) ==> (res matches Some(l)
            ==> env.lookup(l, x@) matches Some(w) && computes(vals, blocks, rhs.inner, w)),
        _ => true,
    }
}

/// Block `cur` ends with `aop` of the value of `x` and 1 into register `next`, and `x` then
/// holds that register.
pub open spec fn step_effect(
    vals: spec_fn(Seq<char>) -> Option<ir::ValueModel>,
    next: u32,
    cur: Label,
    x: Seq<char>,
    aop: ir::ArithOp,
    blocks: Seq<ir::Block>,
    env: Env,
) -> bool {
    &&& 0 <= cur.0 < blocks.len()
    &&& blocks[cur.0 as int].body@.len() > 0
    &&& blocks[cur.0 as int].body@.last() matches ir::Operation::Arithmetic(r, aop2, w, one)
    &&& r.0 == next && aop2 == aop && one == Value::LitInt(1) && vals(x) == Some(w@)
    &&& env.lookup(cur, x) == Some(Value::Register(r, Type::Int))
}

/// The values of the variables as seen from frame `l`.
pub open spec fn env_vals(env: Env, l: Label) -> spec_fn(Seq<char>) -> Option<ir::ValueModel> {
    |n: Seq<char>| match env.lookup(l, n) {
        Some(w) => Some(w@),
        None => None,
    }
}

/// The value `v` is what the generated code in `blocks` computes for the expression `e`, where
/// `vals` gives the values of the variables: a literal is itself; a variable is its value;
/// a string literal is a register that a cast of the global string of its bytes and a
/// terminating zero defines; a call of a function that returns a value is a register that the
/// call, of the register's type and with the argument values in order, defines, and a call of
/// a `void` function a register of that type, with such a call somewhere in the code; integer
/// arithmetic and comparisons are registers that the operation on the two operand values, in
/// order, defines, and string concatenation and string equality the runtime call on them; `-x`
/// and `!x` are the register that subtracts the operand value from 0 or from `true`; `&&` and
/// `||` are a register that a phi function defines, taking `true` from its first predecessor
/// and `false` from its second, where the condition's jumps go to the first where it holds and
/// to the second where it fails.
pub open spec fn computes(
    vals: spec_fn(Seq<char>) -> Option<ir::ValueModel>,
    blocks: Seq<ir::Block>,
    e: ast::InnerExpr,
    v: Value,
) -> bool
    decreases e, value_rank(e),
{
    match e {
        ast::InnerExpr::LitInt(n) => v == Value::LitInt(n),
        ast::InnerExpr::LitBool(b) => v == Value::LitBool(b),
        ast::InnerExpr::LitNull => v == Value::LitNullPtr,
        ast::InnerExpr::LitVar(name) => vals(name@) == Some(v@),
        ast::InnerExpr::LitStr(text) => v matches Value::Register(r, _) && defining_op(blocks, r) matches Some(
            ir::Operation::CastGlobalString(r2, n, _),
        ) && r2 == r && n == crate::text::byte_len(text@) + 1,
        ast::InnerExpr::FunCall { function_name, args } => v matches Value::Register(r, t) && (if t@ is Void {
            exists|i: int, k: int| #![trigger blocks[i].body@[k]] 0 <= i < blocks.len() && 0 <= k < blocks[i].body@.len()
                && (blocks[i].body@[k] matches ir::Operation::FunctionCall(None, rt, name2, arg_vals)
                && rt@ == t@ && name2@ == function_name.inner@ && arg_vals@.len() == args@.len()
                && forall|j: int| 0 <= j < args@.len() ==> computes(vals, blocks, args@[j].inner, #[trigger] arg_vals@[j]))
        } else {
            defining_op(blocks, r) matches Some(ir::Operation::FunctionCall(Some(r2), rt, name2, arg_vals)) && r2 == r
                && rt@ == t@ && name2@ == function_name.inner@ && arg_vals@.len() == args@.len()
                && forall|j: int| 0 <= j < args@.len() ==> computes(vals, blocks, args@[j].inner, #[trigger] arg_vals@[j])
        }),
        ast::InnerExpr::BinaryOp(lhs, op, rhs) => v matches Value::Register(r, _) && match op {
            ast::BinaryOp::And | ast::BinaryOp::Or => defining_phi(blocks, r) matches Some(phi) && phi.2@.len() == 2
                && phi.2@[0].0 == Value::LitBool(true) && phi.2@[1].0 == Value::LitBool(false)
                && cond_jumps(vals, blocks, e, phi.2@[0].1, phi.2@[1].1),
            ast::BinaryOp::Add | ast::BinaryOp::Sub | ast::BinaryOp::Mul | ast::BinaryOp::Div | ast::BinaryOp::Mod =>
                match defining_op(blocks, r) {
                    Some(ir::Operation::Arithmetic(r2, aop, vl, vr)) => r2 == r && aop == spec_arith_op(op)
                        && computes(vals, blocks, lhs.inner, vl) && computes(vals, blocks, rhs.inner, vr),
                    Some(ir::Operation::FunctionCall(Some(r2), _, name, arg_vals)) => r2 == r
                        && name@ == "_bltn_string_concat"@ && arg_vals@.len() == 2
                        && computes(vals, blocks, lhs.inner, arg_vals@[0]) && computes(vals, blocks, rhs.inner, arg_vals@[1]),
                    _ => false,
                },
            _ => match defining_op(blocks, r) {
                Some(ir::Operation::Compare(r2, cop, vl, vr)) => r2 == r && cop == spec_compare_op(op)
                    && computes(vals, blocks, lhs.inner, vl) && computes(vals, blocks, rhs.inner, vr),
                Some(ir::Operation::FunctionCall(Some(r2), _, name, arg_vals)) => r2 == r
                    && (op is EQ ==> name@ == "_bltn_string_eq"@) && (op is NE ==> name@ == "_bltn_string_ne"@)
                    && (op is EQ || op is NE) && arg_vals@.len() == 2
                    && computes(vals, blocks, lhs.inner, arg_vals@[0]) && computes(vals, blocks, rhs.inner, arg_vals@[1]),
                _ => false,
            },
        },
        ast::InnerExpr::UnaryOp(op, x) => v matches Value::Register(r, _) && defining_op(blocks, r) matches Some(
            ir::Operation::Arithmetic(r2, aop, zero, vx),
        ) && r2 == r && aop is Sub && computes(vals, blocks, x.inner, vx) && match op.inner {
            ast::InnerUnaryOp::IntNeg => zero == Value::LitInt(0),
            ast::InnerUnaryOp::BoolNeg => zero == Value::LitBool(true),
        },
        _ => false,
    }
}

/// The IR operation of an arithmetic operator.
pub open spec fn spec_arith_op(op: ast::BinaryOp) -> ir::ArithOp {
    match op {
        ast::BinaryOp::Add => ir::ArithOp::Add,
        ast::BinaryOp::Sub => ir::ArithOp::Sub,
        ast::BinaryOp::Mul => ir::ArithOp::Mul,
        ast::BinaryOp::Div => ir::ArithOp::Div,
        _ => ir::ArithOp::Mod,
    }
}

/// The IR comparison of a comparison operator.
pub open spec fn spec_compare_op(op: ast::BinaryOp) -> ir::CmpOp {
    match op {
        ast::BinaryOp::LT => ir::CmpOp::LT,
        ast::BinaryOp::LE => ir::CmpOp::LE,
        ast::BinaryOp::GT => ir::CmpOp::GT,
        ast::BinaryOp::GE => ir::CmpOp::GE,
        ast::BinaryOp::EQ => ir::CmpOp::EQ,
        _ => ir::CmpOp::NE,
    }
}

/// What generated code computes stays so as more code is generated.
proof fn lemma_computes_kept(vals: spec_fn(Seq<char>) -> Option<ir::ValueModel>, a: Seq<ir::Block>, b: Seq<ir::Block>, e: ast::InnerExpr, v: Value)
    requires
        computes(vals, a, e, v),
        ops_kept(a, b),
        single_defs(b),
    ensures
        computes(vals, b, e, v),
    decreases e, value_rank(e),
{
    match v {
        Value::Register(r, _) => lemma_defining_kept(a, b, r),
        _ => {},
    }
    match e {
        ast::InnerExpr::FunCall { function_name, args } => {
            if let Value::Register(r, t) = v {
                if !(t@ is Void) {
                    if let Some(ir::Operation::FunctionCall(_, _, _, arg_vals)) = defining_op(a, r) {
                        assert forall|j: int| 0 <= j < args@.len() implies computes(vals, b, args@[j].inner, #[trigger] arg_vals@[j]) by {
                            assert(decreases_to!(e => args));
                            assert(decreases_to!(args => args@));
                            assert(decreases_to!(args@ => args@[j]));
                            lemma_computes_kept(vals, a, b, args@[j].inner, arg_vals@[j]);
                        }
                    }
                } else {
                    let (i, k) = choose|i: int, k: int| #![trigger a[i].body@[k]] 0 <= i < a.len() && 0 <= k < a[i].body@.len()
                        && (a[i].body@[k] matches ir::Operation::FunctionCall(None, rt, name2, arg_vals)
                        && rt@ == t@ && name2@ == function_name.inner@ && arg_vals@.len() == args@.len()
                        && forall|j: int| 0 <= j < args@.len() ==> computes(vals, a, args@[j].inner, #[trigger] arg_vals@[j]));
                    if let ir::Operation::FunctionCall(_, _, _, arg_vals) = a[i].body@[k] {
                        assert forall|j: int| 0 <= j < args@.len() implies computes(vals, b, args@[j].inner, #[trigger] arg_vals@[j]) by {
                            assert(decreases_to!(e => args));
                            assert(decreases_to!(args => args@));
                            assert(decreases_to!(args@ => args@[j]));
                            lemma_computes_kept(vals, a, b, args@[j].inner, arg_vals@[j]);
                        }
                    }
                    assert(b[i].body@[k] == a[i].body@[k]);
                }
            }
        },
        ast::InnerExpr::BinaryOp(lhs, op, rhs) => {
            if let Value::Register(r, _) = v {
                if (op is And || op is Or) && defining_phi(a, r) is Some {
                    let phi = defining_phi(a, r)->0;
                    if phi.2@.len() == 2 {
                        lemma_cond_jumps_kept(vals, a, b, e, phi.2@[0].1, phi.2@[1].1);
                    }
                }
                match defining_op(a, r) {
                    Some(ir::Operation::Arithmetic(_, _, vl, vr)) | Some(ir::Operation::Compare(_, _, vl, vr)) => {
                        lemma_computes_kept(vals, a, b, lhs.inner, vl);
                        lemma_computes_kept(vals, a, b, rhs.inner, vr);
                    },
                    Some(ir::Operation::FunctionCall(_, _, _, arg_vals)) => {
                        if arg_vals@.len() == 2 {
                            lemma_computes_kept(vals, a, b, lhs.inner, arg_vals@[0]);
                            lemma_computes_kept(vals, a, b, rhs.inner, arg_vals@[1]);
                        }
                    },
                    _ => {},
                }
            }
        },
        ast::InnerExpr::UnaryOp(_, x) => {
            if let Value::Register(r, _) = v {
                if let Some(ir::Operation::Arithmetic(_, _, _, vx)) = defining_op(a, r) {
                    lemma_computes_kept(vals, a, b, x.inner, vx);
                }
            }
        },
        _ => {},
    }
}

/// `l` is one of the blocks.
pub open spec fn is_block(blocks: Seq<ir::Block>, l: Label) -> bool {
    (l.0 as int) < blocks.len()
}

/// The generated code in `blocks` sends control to block `t` where the condition `e` holds and to
/// block `f` where it fails, `vals` giving the values of the variables: for `a && b`, `a` jumps to
/// some block `m` where it holds and to `f` where it fails, and from `m` on `b` jumps to `t` or `f`;
/// `a || b` likewise with the roles of the targets exchanged; `!c` jumps as `c` does with `t` and
/// `f` exchanged; any other condition is computed and some block ends in a two-way branch on its
/// value, to `t` first and `f` second.
pub open spec fn cond_jumps(
    vals: spec_fn(Seq<char>) -> Option<ir::ValueModel>,
    blocks: Seq<ir::Block>,
    e: ast::InnerExpr,
    t: Label,
    f: Label,
) -> bool
    decreases e, jump_rank(e),
{
    match e {
        ast::InnerExpr::BinaryOp(l, ast::BinaryOp::And, r) => exists|m: Label| #[trigger] is_block(blocks, m)
            && cond_jumps(vals, blocks, l.inner, m, f) && cond_jumps(vals, blocks, r.inner, t, f),
        ast::InnerExpr::BinaryOp(l, ast::BinaryOp::Or, r) => exists|m: Label| #[trigger] is_block(blocks, m)
            && cond_jumps(vals, blocks, l.inner, t, m) && cond_jumps(vals, blocks, r.inner, t, f),
        ast::InnerExpr::UnaryOp(ast::ItemWithSpan { inner: ast::InnerUnaryOp::BoolNeg, .. }, x) =>
            cond_jumps(vals, blocks, x.inner, f, t),
        _ => exists|i: int, k: int| #![trigger blocks[i].body@[k]] 0 <= i < blocks.len() && 0 <= k < blocks[i].body@.len()
            && (blocks[i].body@[k] matches ir::Operation::Branch2(v, t2, f2) && t2 == t && f2 == f
            && computes(vals, blocks, e, v)),
    }
}

/// Orders a value computed for `&&` or `||` after the jumps of the condition.
pub open spec fn value_rank(e: ast::InnerExpr) -> int {
    match e {
        ast::InnerExpr::BinaryOp(_, ast::BinaryOp::And, _) | ast::InnerExpr::BinaryOp(_, ast::BinaryOp::Or, _) => 2,
        _ => 0,
    }
}

/// Orders the jumps of a condition compiled to a branch on its value after that value.
pub open spec fn jump_rank(e: ast::InnerExpr) -> int {
    if branches_on_value(e) { 1 } else { 0 }
}

/// The jumps of generated code for a condition stay as more code is generated.
proof fn lemma_cond_jumps_kept(
    vals: spec_fn(Seq<char>) -> Option<ir::ValueModel>,
    a: Seq<ir::Block>,
    b: Seq<ir::Block>,
    e: ast::InnerExpr,
    t: Label,
    f: Label,
)
    requires
        cond_jumps(vals, a, e, t, f),
        ops_kept(a, b),
        single_defs(b),
    ensures
        cond_jumps(vals, b, e, t, f),
    decreases e, jump_rank(e),
{
    match e {
        ast::InnerExpr::BinaryOp(l, ast::BinaryOp::And, r) => {
            let m = choose|m: Label| #[trigger] is_block(a, m) && cond_jumps(vals, a, l.inner, m, f) && cond_jumps(vals, a, r.inner, t, f);
            lemma_cond_jumps_kept(vals, a, b, l.inner, m, f);
            lemma_cond_jumps_kept(vals, a, b, r.inner, t, f);
            assert(is_block(b, m));
        },
        ast::InnerExpr::BinaryOp(l, ast::BinaryOp::Or, r) => {
            let m = choose|m: Label| #[trigger] is_block(a, m) && cond_jumps(vals, a, l.inner, t, m) && cond_jumps(vals, a, r.inner, t, f);
            lemma_cond_jumps_kept(vals, a, b, l.inner, t, m);
            lemma_cond_jumps_kept(vals, a, b, r.inner, t, f);
            assert(is_block(b, m));
        },
        ast::InnerExpr::UnaryOp(ast::ItemWithSpan { inner: ast::InnerUnaryOp::BoolNeg, .. }, x) => {
            lemma_cond_jumps_kept(vals, a, b, x.inner, f, t);
        },
        _ => {
            let (i, k) = choose|i: int, k: int| #![trigger a[i].body@[k]] 0 <= i < a.len() && 0 <= k < a[i].body@.len()
                && (a[i].body@[k] matches ir::Operation::Branch2(v, t2, f2) && t2 == t && f2 == f
                && computes(vals, a, e, v));
            if let ir::Operation::Branch2(v, _, _) = a[i].body@[k] {
                lemma_computes_kept(vals, a, b, e, v);
            }
            assert(b[i].body@[k] == a[i].body@[k]);
        },
    }
}

/// The code of a call, whatever the callee returns, `void` included, holds a call operation
/// with the callee's name and the type of the call's value, whose argument values are, in order, what the code computes for each
/// argument expression.
pub proof fn lemma_call_passes_arguments_in_order(
    vals: spec_fn(Seq<char>) -> Option<ir::ValueModel>,
    blocks: Seq<ir::Block>,
    function_name: ast::Ident,
    args: Vec<Box<ast::Expr>>,
    v: Value,
)
    requires
        computes(vals, blocks, ast::InnerExpr::FunCall { function_name, args }, v),
    ensures
        exists|i: int, k: int| #![trigger blocks[i].body@[k]] 0 <= i < blocks.len() && 0 <= k < blocks[i].body@.len()
            && (blocks[i].body@[k] matches ir::Operation::FunctionCall(_, rt, name2, arg_vals)
            && (v matches Value::Register(_, t) && rt@ == t@) && name2@ == function_name.inner@ && arg_vals@.len() == args@.len()
            && forall|j: int| 0 <= j < args@.len() ==> computes(vals, blocks, args@[j].inner, #[trigger] arg_vals@[j])),
{
    if let Value::Register(r, t) = v {
        if !(t@ is Void) {
            let (i, k) = choose|i: int, k: int| #[trigger] def_at(blocks, i, false, k) == Some(r);
            assert(blocks[i].body@[k] == defining_op(blocks, r)->0);
        }
    }
}

/// A condition that is compiled to one two-way branch on its value: neither `&&`, `||` nor `!`.
pub open spec fn branches_on_value(e: ast::InnerExpr) -> bool {
    match e {
        ast::InnerExpr::BinaryOp(_, ast::BinaryOp::And, _) | ast::InnerExpr::BinaryOp(_, ast::BinaryOp::Or, _) => false,
        ast::InnerExpr::UnaryOp(op, _) => !(op.inner is BoolNeg),
        _ => true,
    }
}

/// Negation exchanges the targets: the code for `!c` jumps to `t` and `f` exactly as the code
/// for `c` jumps to `f` and `t`, so control reaches `t` where `c` fails. Where `c` is compiled
/// to a branch on its value, that branch goes to `f` first, where the value holds, and to `t`
/// second.
pub proof fn lemma_negation_swaps_targets(
    vals: spec_fn(Seq<char>) -> Option<ir::ValueModel>,
    blocks: Seq<ir::Block>,
    op: ast::UnaryOp,
    c: ast::Expr,
    t: Label,
    f: Label,
)
    requires
        op.inner is BoolNeg,
    ensures
        cond_jumps(vals, blocks, ast::InnerExpr::UnaryOp(op, Box::new(c)), t, f) <==> cond_jumps(vals, blocks, c.inner, f, t),
        branches_on_value(c.inner) ==> (cond_jumps(vals, blocks, ast::InnerExpr::UnaryOp(op, Box::new(c)), t, f) <==>
            exists|i: int, k: int| #![trigger blocks[i].body@[k]] 0 <= i < blocks.len() && 0 <= k < blocks[i].body@.len()
                && (blocks[i].body@[k] matches ir::Operation::Branch2(v, t2, f2) && t2 == f && f2 == t
                && computes(vals, blocks, c.inner, v))),
{
    if branches_on_value(c.inner) {
        match c.inner {
            ast::InnerExpr::BinaryOp(_, ast::BinaryOp::And, _) | ast::InnerExpr::BinaryOp(_, ast::BinaryOp::Or, _) => {},
            ast::InnerExpr::UnaryOp(op2, _) => {
                assert(!(op2.inner is BoolNeg));
            },
            _ => {},
        }
    }
}

impl<'a> FunctionCodeGen<'a> {
    /// Compiles a condition into jumps: control goes from block `cur_label` to `true_label`
    /// where the condition holds and to `false_label` where it does not; `&&`, `||` and `!`
    /// become jumps, without computing a value. Fails where the condition holds a construct
    /// that is not generated.
    fn process_expression_cond(
        &mut self,
        expr: &ast::InnerExpr,
        cur_label: Label,
        true_label: Label,
        false_label: Label,
        Ghost(vars): Ghost<Map<Seq<char>, TypeModel>>,
    ) -> (res: bool)
        requires
            old(self).wf(),
            old(self).valid_label(cur_label),
            old(self).valid_label(true_label),
            old(self).valid_label(false_label),
            old(self).blocks()[true_label.0 as int].phi_set@.len() == 0,
            old(self).blocks()[false_label.0 as int].phi_set@.len() == 0,
            true_label != false_label,
        ensures
            ops_kept(old(self).blocks(), final(self).blocks()),
            final(self).open_regs() == old(self).open_regs(),
            defs_grow(old(self).blocks(), final(self).blocks()),
            defs_since(old(self).blocks(), final(self).blocks(), old(self).next_reg()),
            keeps_old_except(old(self).blocks(), final(self).blocks(), true_label, false_label),
            old(self).env.frames_kept(final(self).env),
            res ==> jumps_added(old(self).blocks(), final(self).blocks(), false_label, false_jumps(*expr), final(self).env, cur_label),
            res ==> jumps_added(old(self).blocks(), final(self).blocks(), true_label, true_jumps(*expr), final(self).env, cur_label),
            res ==> cond_jumps(env_vals(old(self).env, cur_label), final(self).blocks(), *expr, true_label, false_label),
            strings_extend(old(self).strings(), final(self).strings()),
            final(self).wf(),
            final(self).blocks().len() >= old(self).blocks().len(),
            final(self).contexts() == old(self).contexts(),
            old(self).next_reg() <= final(self).next_reg() <= old(self).next_reg() + expr_size(*expr) - 1 + cond_rank(*expr),
            final(self).blocks().len() <= old(self).blocks().len() + 4 * expr_size(*expr) - 9 + 6 * cond_rank(*expr),
            cond_ok(old(self).functions(), vars, *expr) && old(self).env.vars_typed(cur_label, vars) && !old(self).in_method()
                && old(self).next_reg() + expr_size(*expr) < 4294967295
                && old(self).blocks().len() + 4 * expr_size(*expr) < 4294967294 ==> res,
        decreases *expr, cond_rank(*expr),
    {
        proof {
            lemma_expr_size_pos(*expr);
            match expr {
                ast::InnerExpr::BinaryOp(l, _, r) => {
                    lemma_expr_size_pos(l.inner);
                    lemma_expr_size_pos(r.inner);
                },
                ast::InnerExpr::UnaryOp(_, x) => lemma_expr_size_pos(x.inner),
                _ => {},
            }
        }
        match expr {
            ast::InnerExpr::BinaryOp(lhs, ast::BinaryOp::And, rhs) => {
                let mid_label = match self.allocate_new_block(cur_label) {
                    Some(l) => l,
                    None => return false,
                };
                let ghost e_mid = self.env;
                proof {
                    if old(self).env.vars_typed(cur_label, vars) {
                        lemma_frames_kept_vars_typed(old(self).env, self.env, cur_label, vars);
                        lemma_empty_child_vars_typed(self.env, mid_label, cur_label, vars);
                    }
                }
                let ghost b_mid = self.blocks();
                proof {
                    assert forall|n: Seq<char>| #[trigger] self.env.lookup(mid_label, n) == self.env.lookup(cur_label, n) by {
                        lemma_empty_child_lookup(self.env, mid_label, cur_label, n);
                    }
                }
                if !self.process_expression_cond(&lhs.inner, cur_label, mid_label, false_label, Ghost(vars)) {
                    return false;
                }
                let ghost e1 = self.env;
                let ghost b1 = self.blocks();
                proof {
                    if e_mid.vars_typed(mid_label, vars) {
                        lemma_frames_kept_vars_typed(e_mid, self.env, mid_label, vars);
                    }
                    lemma_sees_same_kept(e_mid, e1, mid_label, cur_label);
                }
                let r = self.process_expression_cond(&rhs.inner, mid_label, true_label, false_label, Ghost(vars));
                proof {
                    if r {
                        let e2 = self.env;
                        let b2 = self.blocks();
                        let vals = env_vals(old(self).env, cur_label);
                        lemma_frames_kept_lookups(old(self).env, e_mid, cur_label);
                        lemma_frames_kept_lookups(e_mid, e1, cur_label);
                        assert(env_vals(e_mid, cur_label) =~= vals);
                        assert(env_vals(e1, mid_label) =~= vals);
                        lemma_cond_jumps_kept(vals, b1, b2, lhs.inner, mid_label, false_label);
                        assert(is_block(b2, mid_label));
                        lemma_sees_same_kept(e1, e2, mid_label, cur_label);
                        let f = false_label.0 as int;
                        assert forall|j: int| old(self).blocks()[f].predecessors@.len() <= j < b2[f].predecessors@.len()
                            implies e2.sees_same(#[trigger] b2[f].predecessors@[j], cur_label) by {
                            if j < b1[f].predecessors@.len() {
                                let p = b1[f].predecessors@[j];
                                assert(pred_ok(b1, f, p));
                                lemma_sees_same_kept(e1, e2, p, cur_label);
                            } else {
                                assert(e2.sees_same(b2[f].predecessors@[j], mid_label));
                            }
                        }
                        let t = true_label.0 as int;
                        assert forall|j: int| old(self).blocks()[t].predecessors@.len() <= j < b2[t].predecessors@.len()
                            implies e2.sees_same(#[trigger] b2[t].predecessors@[j], cur_label) by {
                            assert(e2.sees_same(b2[t].predecessors@[j], mid_label));
                        }
                    }
                }
                r
            },
            ast::InnerExpr::BinaryOp(lhs, ast::BinaryOp::Or, rhs) => {
                let mid_label = match self.allocate_new_block(cur_label) {
                    Some(l) => l,
                    None => return false,
                };
                let ghost e_mid = self.env;
                proof {
                    if old(self).env.vars_typed(cur_label, vars) {
                        lemma_frames_kept_vars_typed(old(self).env, self.env, cur_label, vars);
                        lemma_empty_child_vars_typed(self.env, mid_label, cur_label, vars);
                    }
                }
                let ghost b_mid = self.blocks();
                proof {
                    assert forall|n: Seq<char>| #[trigger] self.env.lookup(mid_label, n) == self.env.lookup(cur_label, n) by {
                        lemma_empty_child_lookup(self.env, mid_label, cur_label, n);
                    }
                }
                if !self.process_expression_cond(&lhs.inner, cur_label, true_label, mid_label, Ghost(vars)) {
                    return false;
                }
                let ghost e1 = self.env;
                let ghost b1 = self.blocks();
                proof {
                    if e_mid.vars_typed(mid_label, vars) {
                        lemma_frames_kept_vars_typed(e_mid, self.env, mid_label, vars);
                    }
                    lemma_sees_same_kept(e_mid, e1, mid_label, cur_label);
                }
                let r = self.process_expression_cond(&rhs.inner, mid_label, true_label, false_label, Ghost(vars));
                proof {
                    if r {
                        let e2 = self.env;
                        let b2 = self.blocks();
                        let vals = env_vals(old(self).env, cur_label);
                        lemma_frames_kept_lookups(old(self).env, e_mid, cur_label);
                        lemma_frames_kept_lookups(e_mid, e1, cur_label);
                        assert(env_vals(e_mid, cur_label) =~= vals);
                        assert(env_vals(e1, mid_label) =~= vals);
                        lemma_cond_jumps_kept(vals, b1, b2, lhs.inner, true_label, mid_label);
                        assert(is_block(b2, mid_label));
                        lemma_sees_same_kept(e1, e2, mid_label, cur_label);
                        let t = true_label.0 as int;
                        assert forall|j: int| old(self).blocks()[t].predecessors@.len() <= j < b2[t].predecessors@.len()
                            implies e2.sees_same(#[trigger] b2[t].predecessors@[j], cur_label) by {
                            if j < b1[t].predecessors@.len() {
                                let p = b1[t].predecessors@[j];
                                assert(pred_ok(b1, t, p));
                                lemma_sees_same_kept(e1, e2, p, cur_label);
                            } else {
                                assert(e2.sees_same(b2[t].predecessors@[j], mid_label));
                            }
                        }
                        let f = false_label.0 as int;
                        assert forall|j: int| old(self).blocks()[f].predecessors@.len() <= j < b2[f].predecessors@.len()
                            implies e2.sees_same(#[trigger] b2[f].predecessors@[j], cur_label) by {
                            assert(e2.sees_same(b2[f].predecessors@[j], mid_label));
                        }
                    }
                }
                r
            },
            ast::InnerExpr::UnaryOp(ast::ItemWithSpan { inner: ast::InnerUnaryOp::BoolNeg, .. }, lhs) => {
                self.process_expression_cond(&lhs.inner, cur_label, false_label, true_label, Ghost(vars))
            },
            _ => {
                match self.process_expression(expr, cur_label, Ghost(vars)) {
                    Some((new_label, value)) => {
                        let ghost b1 = self.blocks();
                        self.add_branch2_op(new_label, value, true_label, false_label);
                        proof {
                            let b2 = self.blocks();
                            let vals = env_vals(old(self).env, cur_label);
                            let i = new_label.0 as int;
                            let k = b1[i].body@.len() as int;
                            assert(b2[i].body@[k] == ir::Operation::Branch2(value, true_label, false_label));
                            lemma_computes_kept(vals, b1, b2, *expr, value);
                        }
                        true
                    },
                    None => false,
                }
            },
        }
    }

    /// Compiles an expression starting in block `cur_label`: gives the block where control is
    /// once the value is computed, and the value. Fails where the expression holds a construct
    /// that is not generated, or a name that no frame declares.
    #[verifier::rlimit(80)]
    #[verifier::spinoff_prover]
    fn process_expression(
        &mut self,
        expr: &ast::InnerExpr,
        cur_label: Label,
        Ghost(vars): Ghost<Map<Seq<char>, TypeModel>>,
    ) -> (res: Option<(Label, Value)>)
        requires
            old(self).wf(),
            old(self).valid_label(cur_label),
        ensures
            ops_kept(old(self).blocks(), final(self).blocks()),
            res matches Some((_, v)) ==> computes(env_vals(old(self).env, cur_label), final(self).blocks(), *expr, v),
            final(self).open_regs() == old(self).open_regs(),
            defs_grow(old(self).blocks(), final(self).blocks()),
            res matches Some((_, v)) ==> value_settled(final(self).blocks(), final(self).open_regs(), v),
            res matches Some((_, v)) ==> value_below(v, final(self).next_reg()),
            defs_since(old(self).blocks(), final(self).blocks(), old(self).next_reg()),
            keeps_old(old(self).blocks(), final(self).blocks()),
            old(self).env.frames_kept(final(self).env),
            res matches Some((l, _)) ==> l == cur_label || (!old(self).env.valid_frame(l)
                && final(self).env.frame_locals(l).dom() == Set::<Seq<char>>::empty()),
            res matches Some((l, _)) ==> forall|n: Seq<char>| #[trigger] final(self).env.lookup(l, n)
                == final(self).env.lookup(cur_label, n),
            strings_extend(old(self).strings(), final(self).strings()),
            final(self).wf(),
            final(self).blocks().len() >= old(self).blocks().len(),
            res matches Some((l, _)) ==> final(self).valid_label(l),
            final(self).contexts() == old(self).contexts(),
            old(self).next_reg() <= final(self).next_reg() <= old(self).next_reg() + expr_size(*expr),
            final(self).blocks().len() <= old(self).blocks().len() + 4 * expr_size(*expr) - 3,
            cg_type(old(self).functions(), vars, *expr) is Some && old(self).env.vars_typed(cur_label, vars)
                ==> (res matches Some((_, v)) ==> spec_value_type(v@) == cg_type(old(self).functions(), vars, *expr)->0),
            cg_type(old(self).functions(), vars, *expr) is Some && old(self).env.vars_typed(cur_label, vars) && !old(self).in_method()
                && old(self).next_reg() + expr_size(*expr) < 4294967295
                && old(self).blocks().len() + 4 * expr_size(*expr) + 2 * expr_rank(*expr) < 4294967294
                ==> res is Some,
        decreases *expr, expr_rank(*expr),
    {
        proof {
            lemma_expr_size_pos(*expr);
            match expr {
                ast::InnerExpr::BinaryOp(l, _, r) => {
                    lemma_expr_size_pos(l.inner);
                    lemma_expr_size_pos(r.inner);
                },
                ast::InnerExpr::UnaryOp(_, x) => lemma_expr_size_pos(x.inner),
                _ => {},
            }
        }
        match expr {
            ast::InnerExpr::LitVar(var_name) => match self.env.get_variable(cur_label, var_name.as_str()) {
                Some(value) => {
                    let v = value.clone();
                    proof {
                        self.lemma_env_var_below(cur_label, var_name@, v);
                    }
                    Some((cur_label, v))
                },
                None => None,
            },
            ast::InnerExpr::LitInt(int_val) => Some((cur_label, Value::LitInt(*int_val))),
            ast::InnerExpr::LitBool(bool_val) => Some((cur_label, Value::LitBool(*bool_val))),
            ast::InnerExpr::LitStr(str_val) => {
                let reg_num = match self.get_new_reg_num() {
                    Some(r) => r,
                    None => return None,
                };
                let len = crate::text::byte_length(str_val.as_str());
                if len == usize::MAX {
                    return None;
                }
                let str_ir_val = self.get_global_string(str_val.as_str());
                match str_ir_val {
                    Value::GlobalRegister(str_num) => {
                        self.push_op(cur_label, ir::Operation::CastGlobalString(reg_num, len + 1, str_num));
                        proof {
                            lemma_last_op_defines(self.blocks@, cur_label.0 as int, reg_num);
                        }
                    },
                    _ => return None,
                }
                let str_type = Type::Ptr(Box::new(Type::Char));
                assert(Type::Char@ == TypeModel::Char);
                assert(str_type@ == TypeModel::Ptr(Box::new(TypeModel::Char)));
                Some((cur_label, Value::Register(reg_num, str_type)))
            },
            ast::InnerExpr::LitNull => Some((cur_label, Value::LitNullPtr)),
            ast::InnerExpr::FunCall { function_name, args } => {
                let info = match self.env.get_function(function_name.inner.as_str()) {
                    Some(info) => info,
                    None => return None,
                };
                if info.is_class_method {
                    return None;
                }
                let mut args_values: Vec<Value> = Vec::new();
                let ghost vals = env_vals(old(self).env, cur_label);
                let ghost start_label = cur_label;
                let mut call_label = cur_label;
                let mut i: usize = 0;
                proof {
                    assert forall|j: int| 0 <= j < args@.len() implies decreases_to!(*expr => (#[trigger] args@[j]).inner) by {
                        assert(decreases_to!(*expr => *args));
                        assert(decreases_to!(*args => args@));
                        assert(decreases_to!(args@ => args@[j]));
                    }
                }
                let ghost fns = old(self).functions();
                let ghost start_reg = old(self).next_reg() as int;
                let ghost start_blocks = old(self).blocks().len() as int;
                let ghost fits = args_ok(fns, vars, args@) && old(self).env.vars_typed(start_label, vars) && !old(self).in_method()
                    && start_reg + expr_size(*expr) < 4294967295
                    && start_blocks + 4 * expr_size(*expr) < 4294967294;
                proof {
                    lemma_args_size_take(args@, args@.len() as int);
                    assert(args@.take(args@.len() as int) =~= args@);
                    assert(expr_size(*expr) == 1 + args_size(args@));
                }
                while i < args.len()
                    invariant
                        self.wf(),
                        self.valid_label(call_label),
                        old(self).blocks().len() <= self.blocks().len(),
                        strings_extend(old(self).strings(), self.strings()),
                        i <= args@.len(),
                        forall|j: int| 0 <= j < args@.len() ==> decreases_to!(*expr => (#[trigger] args@[j]).inner),
                        self.contexts() == old(self).contexts(),
                        fns == self.functions(),
                        !self.in_method() == !old(self).in_method(),
                        expr_size(*expr) == 1 + args_size(args@),
                        start_reg == old(self).next_reg(),
                        start_blocks == old(self).blocks().len(),
                        start_reg <= self.next_reg() <= start_reg + args_size(args@.take(i as int)),
                        self.blocks().len() <= start_blocks + 4 * args_size(args@.take(i as int)),
                        fits == (args_ok(fns, vars, args@) && old(self).env.vars_typed(start_label, vars) && !old(self).in_method()
                            && start_reg + expr_size(*expr) < 4294967295
                            && start_blocks + 4 * expr_size(*expr) < 4294967294),
                        cg_type(fns, vars, *expr) is Some ==> args_ok(fns, vars, args@),
                        expr_rank(*expr) == 0,
                        keeps_old(old(self).blocks(), self.blocks()),
                        old(self).env.frames_kept(self.env),
                        start_label == call_label || (!old(self).env.valid_frame(call_label)
                            && self.env.frame_locals(call_label).dom() == Set::<Seq<char>>::empty()),
                        forall|n: Seq<char>| #[trigger] self.env.lookup(call_label, n) == self.env.lookup(start_label, n),
                        old(self).env.vars_typed(start_label, vars) ==> self.env.vars_typed(call_label, vars),
                        old(self).valid_label(start_label),
                        start_label == cur_label,
                        defs_since(old(self).blocks(), self.blocks(), old(self).next_reg()),
                defs_grow(old(self).blocks(), self.blocks()),
                self.open_regs() == old(self).open_regs(),
                        args_values@.len() == i,
                        forall|j: int| 0 <= j < i ==> value_below(#[trigger] args_values@[j], self.next_reg()),
                        forall|j: int| 0 <= j < i ==> value_settled(self.blocks(), self.open_regs(), #[trigger] args_values@[j]),
                        self.open_regs() == old(self).open_regs(),
                        defs_grow(old(self).blocks(), self.blocks()),
                        ops_kept(old(self).blocks(), self.blocks()),
                        vals == env_vals(old(self).env, cur_label),
                        forall|n: Seq<char>| #[trigger] self.env.lookup(call_label, n) == old(self).env.lookup(cur_label, n),
                        forall|j: int| 0 <= j < i ==> computes(vals, self.blocks(), args@[j].inner, #[trigger] args_values@[j]),
                    decreases args@.len() - i,
                {
                    proof {
                        assert(decreases_to!(*expr => args@[i as int].inner));
                        lemma_args_size_take(args@, i as int);
                        lemma_args_size_take(args@, i + 1);
                        lemma_args_size_take(args@, args@.len() as int);
                        assert(args@.take(args@.len() as int) =~= args@);
                        assert(args@.take(i + 1).drop_last() =~= args@.take(i as int));
                        assert(args@.take(i + 1).last() == args@[i as int]);
                        if fits {
                            lemma_args_ok_index(fns, vars, args@, i as int);
                        }
                    }
                    let ghost env_before = self.env;
                    let ghost label_before = call_label;
                    let ghost blocks_before = self.blocks();
                    let ghost values_before = args_values@;
                    match self.process_expression(&args[i].inner, call_label, Ghost(vars)) {
                        Some((new_label, value)) => {
                            proof {
                                lemma_frames_kept_lookups(env_before, self.env, label_before);
                                lemma_frames_kept_lookups(env_before, self.env, start_label);
                                lemma_ops_kept_trans(old(self).blocks(), blocks_before, self.blocks());
                                assert(env_vals(env_before, label_before) =~= vals);
                                assert forall|j: int| 0 <= j < i implies computes(vals, self.blocks(), args@[j].inner, #[trigger] values_before[j]) by {
                                    lemma_computes_kept(vals, blocks_before, self.blocks(), args@[j].inner, values_before[j]);
                                }
                                if env_before.vars_typed(label_before, vars) {
                                    lemma_frames_kept_vars_typed(env_before, self.env, label_before, vars);
                                }
                            }
                            call_label = new_label;
                            args_values.push(value);
                            proof {
                                assert forall|j: int| 0 <= j < i + 1 implies computes(vals, self.blocks(), args@[j].inner, #[trigger] args_values@[j]) by {
                                    if j < i {
                                        assert(args_values@[j] == values_before[j]);
                                    }
                                }
                            }
                        },
                        None => {
                            assert(!fits);
                            return None;
                        },
                    }
                    i = i + 1;
                }
                proof {
                    assert(args@.take(args@.len() as int) =~= args@);
                }
                let reg_num = match self.get_new_reg_num() {
                    Some(r) => r,
                    None => return None,
                };
                let op_reg_num = match info.ret_type {
                    Type::Void => None,
                    _ => Some(reg_num),
                };
                let ghost blocks_mid = self.blocks();
                let ghost values_g = args_values@;
                let ret_t = info.ret_type.clone();
                let fname = function_name.inner.clone();
                self.push_op(call_label, ir::Operation::FunctionCall(op_reg_num, ret_t, fname, args_values));
                proof {
                    assert forall|j: int| 0 <= j < args@.len() implies computes(vals, self.blocks(), args@[j].inner, #[trigger] values_g[j]) by {
                        lemma_computes_kept(vals, blocks_mid, self.blocks(), args@[j].inner, values_g[j]);
                    }
                    if op_reg_num is Some {
                        lemma_last_op_defines(self.blocks@, call_label.0 as int, reg_num);
                    } else {
                        let ci = call_label.0 as int;
                        let ck = blocks_mid[ci].body@.len() as int;
                        assert(self.blocks()[ci].body@[ck] == ir::Operation::FunctionCall(op_reg_num, ret_t, fname, args_values));
                    }
                    assert(env_vals(old(self).env, cur_label) =~= vals);
                }
                Some((call_label, Value::Register(reg_num, info.ret_type)))
            },
            ast::InnerExpr::BinaryOp(lhs, op, rhs) => match op {
                ast::BinaryOp::And | ast::BinaryOp::Or => {
                    let true_label = match self.allocate_new_block(cur_label) {
                        Some(l) => l,
                        None => return None,
                    };
                    let false_label = match self.allocate_new_block(cur_label) {
                        Some(l) => l,
                        None => return None,
                    };
                    proof {
                        if old(self).env.vars_typed(cur_label, vars) {
                            lemma_frames_kept_vars_typed(old(self).env, self.env, cur_label, vars);
                        }
                    }
                    let ghost e_c = self.env;
                    if !self.process_expression_cond(expr, cur_label, true_label, false_label, Ghost(vars)) {
                        return None;
                    }
                    let ghost b_c = self.blocks();
                    proof {
                        lemma_frames_kept_lookups(old(self).env, e_c, cur_label);
                        assert(env_vals(e_c, cur_label) =~= env_vals(old(self).env, cur_label));
                    }
                    let cont_label = match self.allocate_new_block(cur_label) {
                        Some(l) => l,
                        None => return None,
                    };
                    self.add_branch1_op(true_label, cont_label);
                    self.add_branch1_op(false_label, cont_label);
                    let new_reg = match self.get_new_reg_num() {
                        Some(r) => r,
                        None => return None,
                    };
                    let incoming = vec![(Value::LitBool(true), true_label), (Value::LitBool(false), false_label)];
                    proof {
                        assert(phi_labels(incoming@) =~= seq![true_label, false_label]);
                        assert(self.blocks()[cont_label.0 as int].predecessors@ =~= seq![true_label, false_label]);
                    }
                    let ghost phi_g = (new_reg, Type::Bool, incoming);
                    self.push_phi(cont_label, (new_reg, Type::Bool, incoming));
                    proof {
                        let k = self.blocks@[cont_label.0 as int].phi_set@.len() - 1;
                        assert(self.blocks@[cont_label.0 as int].phi_set@[k] == phi_g);
                        assert(def_at(self.blocks@, cont_label.0 as int, true, k) == Some(new_reg));
                        lemma_defining_at(self.blocks@, cont_label.0 as int, true, k, new_reg);
                        lemma_cond_jumps_kept(env_vals(old(self).env, cur_label), b_c, self.blocks(), *expr, true_label, false_label);
                    }
                    Some((cont_label, Value::Register(new_reg, Type::Bool)))
                },
                ast::BinaryOp::Add | ast::BinaryOp::Sub | ast::BinaryOp::Mul | ast::BinaryOp::Div | ast::BinaryOp::Mod => {
                    let (l1, lhs_val) = match self.process_expression(&lhs.inner, cur_label, Ghost(vars)) {
                        Some(r) => r,
                        None => return None,
                    };
                    let ghost e1 = self.env;
                    let ghost b1 = self.blocks();
                    let ghost vals = env_vals(old(self).env, cur_label);
                    proof {
                        if old(self).env.vars_typed(cur_label, vars) {
                            lemma_expr_step(old(self).env, self.env, cur_label, l1, vars);
                        }
                        lemma_frames_kept_lookups(old(self).env, e1, cur_label);
                        assert(env_vals(e1, l1) =~= vals);
                    }
                    let (new_label, rhs_val) = match self.process_expression(&rhs.inner, l1, Ghost(vars)) {
                        Some(r) => r,
                        None => return None,
                    };
                    let ghost b2 = self.blocks();
                    proof {
                        lemma_expr_chain(old(self).env, e1, self.env, cur_label, l1, new_label);
                    }
                    match lhs_val.get_type() {
                        Type::Int => {
                            let new_op = arith_op(*op);
                            let new_reg = match self.get_new_reg_num() {
                                Some(r) => r,
                                None => return None,
                            };
                            self.push_op(new_label, ir::Operation::Arithmetic(new_reg, new_op, lhs_val, rhs_val));
                            proof {
                                lemma_computes_kept(vals, b1, self.blocks(), lhs.inner, lhs_val);
                                lemma_computes_kept(vals, b2, self.blocks(), rhs.inner, rhs_val);
                                lemma_last_op_defines(self.blocks@, new_label.0 as int, new_reg);
                            }

                            Some((new_label, Value::Register(new_reg, Type::Int)))
                        },
                        Type::Ptr(sub) => {
                            let str_type = Type::Ptr(sub);
                            let new_reg = match self.get_new_reg_num() {
                                Some(r) => r,
                                None => return None,
                            };
                            self.push_op(new_label, ir::Operation::FunctionCall(
                                Some(new_reg),
                                str_type.clone(),
                                "_bltn_string_concat".to_owned(),
                                vec![lhs_val, rhs_val],
                            ));
                            proof {
                                lemma_computes_kept(vals, b1, self.blocks(), lhs.inner, lhs_val);
                                lemma_computes_kept(vals, b2, self.blocks(), rhs.inner, rhs_val);
                                lemma_last_op_defines(self.blocks@, new_label.0 as int, new_reg);
                            }
                            Some((new_label, Value::Register(new_reg, str_type)))
                        },
                        _ => None,
                    }
                },
                _ => {
                    let (l1, lhs_val) = match self.process_expression(&lhs.inner, cur_label, Ghost(vars)) {
                        Some(r) => r,
                        None => return None,
                    };
                    let ghost e1 = self.env;
                    let ghost b1 = self.blocks();
                    let ghost vals = env_vals(old(self).env, cur_label);
                    proof {
                        if old(self).env.vars_typed(cur_label, vars) {
                            lemma_expr_step(old(self).env, self.env, cur_label, l1, vars);
                        }
                        lemma_frames_kept_lookups(old(self).env, e1, cur_label);
                        assert(env_vals(e1, l1) =~= vals);
                    }
                    let (new_label, rhs_val) = match self.process_expression(&rhs.inner, l1, Ghost(vars)) {
                        Some(r) => r,
                        None => return None,
                    };
                    let ghost b2 = self.blocks();
                    proof {
                        lemma_expr_chain(old(self).env, e1, self.env, cur_label, l1, new_label);
                    }
                    match lhs_val.get_type() {
                        Type::Int | Type::Bool => {
                            let new_op = compare_op(*op);
                            let new_reg = match self.get_new_reg_num() {
                                Some(r) => r,
                                None => return None,
                            };
                            self.push_op(new_label, ir::Operation::Compare(new_reg, new_op, lhs_val, rhs_val));
                            proof {
                                lemma_computes_kept(vals, b1, self.blocks(), lhs.inner, lhs_val);
                                lemma_computes_kept(vals, b2, self.blocks(), rhs.inner, rhs_val);
                                lemma_last_op_defines(self.blocks@, new_label.0 as int, new_reg);
                            }

                            Some((new_label, Value::Register(new_reg, Type::Bool)))
                        },
                        Type::Ptr(sub) => {
                            let is_char = match &*sub {
                                Type::Char => true,
                                _ => false,
                            };
                            if is_char {
                                let fun_name = match op {
                                    ast::BinaryOp::EQ => "_bltn_string_eq",
                                    ast::BinaryOp::NE => "_bltn_string_ne",
                                    _ => return None,
                                };
                                let new_reg = match self.get_new_reg_num() {
                                    Some(r) => r,
                                    None => return None,
                                };
                                self.push_op(cur_label, ir::Operation::FunctionCall(
                                    Some(new_reg),
                                    Type::Bool,
                                    fun_name.to_owned(),
                                    vec![lhs_val, rhs_val],
                                ));
                                proof {
                                    lemma_computes_kept(vals, b1, self.blocks(), lhs.inner, lhs_val);
                                    lemma_computes_kept(vals, b2, self.blocks(), rhs.inner, rhs_val);
                                    lemma_last_op_defines(self.blocks@, cur_label.0 as int, new_reg);
                                }
                                Some((cur_label, Value::Register(new_reg, Type::Bool)))
                            } else {
                                proof {
                                    assert((*sub)@ != TypeModel::Char);
                                }
                                None
                            }
                        },
                        _ => None,
                    }
                },
            },
            ast::InnerExpr::UnaryOp(op, lhs) => match op.inner {
                ast::InnerUnaryOp::IntNeg => {
                    let (new_label, value) = match self.process_expression(&lhs.inner, cur_label, Ghost(vars)) {
                        Some(r) => r,
                        None => return None,
                    };
                    let ghost b1 = self.blocks();
                    let new_reg = match self.get_new_reg_num() {
                        Some(r) => r,
                        None => return None,
                    };
                    self.push_op(new_label, ir::Operation::Arithmetic(new_reg, ir::ArithOp::Sub, Value::LitInt(0), value));
                    proof {
                        lemma_computes_kept(env_vals(old(self).env, cur_label), b1, self.blocks(), lhs.inner, value);
                        lemma_last_op_defines(self.blocks@, new_label.0 as int, new_reg);
                    }
                    Some((new_label, Value::Register(new_reg, Type::Int)))
                },
                ast::InnerUnaryOp::BoolNeg => {
                    let (new_label, value) = match self.process_expression(&lhs.inner, cur_label, Ghost(vars)) {
                        Some(r) => r,
                        None => return None,
                    };
                    let ghost b1 = self.blocks();
                    let new_reg = match self.get_new_reg_num() {
                        Some(r) => r,
                        None => return None,
                    };
                    self.push_op(new_label, ir::Operation::Arithmetic(new_reg, ir::ArithOp::Sub, Value::LitBool(true), value));
                    proof {
                        lemma_computes_kept(env_vals(old(self).env, cur_label), b1, self.blocks(), lhs.inner, value);
                        lemma_last_op_defines(self.blocks@, new_label.0 as int, new_reg);
                    }
                    Some((new_label, Value::Register(new_reg, Type::Bool)))
                },
            },
            _ => None,
        }
    }
}


/// For each variable that a loop's condition block sees: its name, its value on entry to the
/// loop, and the register of the phi function that gives its value in the condition block.
pub type LoopStub = Vec<(String, Value, Value)>;

/// The register that entry `k` of a loop stub announces.
pub open spec fn stub_reg(stub: Seq<(String, Value, Value)>, k: int) -> RegNum {
    match stub[k].2@ {
        ir::ValueModel::Register(r, _) => RegNum(r),
        _ => RegNum(0),
    }
}

impl<'a> FunctionCodeGen<'a> {
    /// Merges the variables at block `common_succ`, which both branches of a conditional
    /// (its two predecessors) lead to: a variable that either branch changed gets, in the frame
    /// that declares it, the value both branches agree on, or else a new phi function. Fails
    /// where `common_succ` has not exactly two predecessors, or where a variable that a branch
    /// sees is not seen from `common_pred`.
    fn calculate_phi_set_for_if(
        &mut self,
        common_pred: Label,
        common_succ: Label,
        Ghost(vars): Ghost<Map<Seq<char>, TypeModel>>,
    ) -> (res: bool)
        requires
            old(self).wf(),
            old(self).valid_label(common_pred),
            old(self).valid_label(common_succ),
        ensures
            final(self).open_regs() == old(self).open_regs(),
            defs_grow(old(self).blocks(), final(self).blocks()),
            defs_since(old(self).blocks(), final(self).blocks(), old(self).next_reg()),
            old(self).next_reg() <= final(self).next_reg(),
            old(self).phi_ready(common_pred, common_succ, vars) ==> vars.dom().finite()
                && old(self).env.shape_grows(final(self).env, Label(UNREACHABLE_LABEL_NO))
                && final(self).next_reg() <= old(self).next_reg() + vars.dom().len(),
            old(self).phi_ready(common_pred, common_succ, vars) && old(self).next_reg() + vars.dom().len() < 4294967295 ==> res,
            forall|t: int| 0 <= t < old(self).blocks().len() ==> (#[trigger] final(self).blocks()[t]).predecessors
                == old(self).blocks()[t].predecessors,
            forall|t: int| 0 <= t < old(self).blocks().len() && t != common_succ.0 ==> (#[trigger] final(self).blocks()[t]).phi_set
                == old(self).blocks()[t].phi_set,
            final(self).contexts() == old(self).contexts(),
            strings_extend(old(self).strings(), final(self).strings()),
            final(self).wf(),
            final(self).blocks().len() == old(self).blocks().len(),
    {
        let succ = self.get_block(common_succ);
        if succ.predecessors.len() != 2 {
            return false;
        }
        let br1 = succ.predecessors[0];
        let br2 = succ.predecessors[1];
        proof {
            assert(self.blocks@[common_succ.0 as int].predecessors@ =~= seq![br1, br2]);
            assert(pred_ok(self.blocks@, common_succ.0 as int, self.blocks@[common_succ.0 as int].predecessors@[0]));
            assert(pred_ok(self.blocks@, common_succ.0 as int, self.blocks@[common_succ.0 as int].predecessors@[1]));
        }
        let ghost env0 = self.env;
        let ghost ready = self.phi_ready(common_pred, common_succ, vars);
        let ghost start_reg = self.next_reg();
        let names1 = self.env.get_all_visible_local_variables(br1);
        let mut names = self.env.get_all_visible_local_variables(br2);
        let mut k: usize = 0;
        while k < names1.len()
            invariant
                k <= names1@.len(),
                names_distinct(names@),
                forall|n: Seq<char>| #[trigger] names_contain(names1@, n) <==> env0.lookup(br1, n) is Some,
                forall|n: Seq<char>| #[trigger] names_contain(names@, n) <==> (env0.lookup(br2, n) is Some
                    || exists|j: int| 0 <= j < k && names1@[j]@ == n),
            decreases names1@.len() - k,
        {
            let ghost before = names@;
            if !contains_name(&names, names1[k].as_str()) {
                names.push(names1[k].clone());
                proof {
                    assert forall|a: int, b: int| 0 <= a < names@.len() && 0 <= b < names@.len() && a != b
                        implies (#[trigger] names@[a])@ != (#[trigger] names@[b])@ by {
                        if a < before.len() && b < before.len() {
                            assert(names@[a] == before[a] && names@[b] == before[b]);
                        } else if a < before.len() {
                            assert(names@[a] == before[a]);
                            assert(names_contain(before, before[a]@));
                        } else if b < before.len() {
                            assert(names@[b] == before[b]);
                            assert(names_contain(before, before[b]@));
                        }
                    }
                }
            }
            proof {
                assert forall|n: Seq<char>| #[trigger] names_contain(names@, n) <==> (env0.lookup(br2, n) is Some
                    || exists|j: int| 0 <= j < k + 1 && names1@[j]@ == n) by {
                    if names_contain(names@, n) {
                        let j = choose|j: int| 0 <= j < names@.len() && (#[trigger] names@[j])@ == n;
                        if j < before.len() {
                            assert(before[j] == names@[j]);
                            assert(names_contain(before, n));
                        } else {
                            assert(names1@[k as int]@ == n);
                        }
                    }
                    if env0.lookup(br2, n) is Some || exists|j: int| 0 <= j < k && names1@[j]@ == n {
                        assert(names_contain(before, n));
                        let j = choose|j: int| 0 <= j < before.len() && (#[trigger] before[j])@ == n;
                        assert(names@[j] == before[j]);
                    }
                    if names1@[k as int]@ == n {
                        if !names_contain(before, n) {
                            assert(names@[names@.len() - 1]@ == n);
                        } else {
                            let j = choose|j: int| 0 <= j < before.len() && (#[trigger] before[j])@ == n;
                            assert(names@[j] == before[j]);
                        }
                    }
                }
            }
            k = k + 1;
        }
        proof {
            assert forall|n: Seq<char>| #[trigger] names_contain(names@, n) <==> (env0.lookup(br2, n) is Some
                || env0.lookup(br1, n) is Some) by {
                if exists|j: int| 0 <= j < names1@.len() && names1@[j]@ == n {
                    let j = choose|j: int| 0 <= j < names1@.len() && names1@[j]@ == n;
                    assert(names_contain(names1@, n));
                }
                if env0.lookup(br1, n) is Some {
                    assert(names_contain(names1@, n));
                }
            }
            if ready {
                assert forall|n: Seq<char>| #[trigger] names_contain(names@, n) <==> vars.dom().contains(n) by {
                    if names_contain(names@, n) {
                        if env0.lookup(br1, n) is Some {
                        } else {
                            assert(env0.lookup(br2, n) is Some);
                        }
                    }
                    if vars.dom().contains(n) {
                        assert(vars.contains_key(n));
                    }
                }
                lemma_names_count(names@, vars.dom());
            }
            lemma_frames_kept_shape(env0, env0, Label(UNREACHABLE_LABEL_NO));
        }
        let ghost n_blocks = self.blocks@.len();
        let mut i: usize = 0;
        while i < names.len()
            invariant
                self.wf(),
                self.blocks@.len() == n_blocks,
                n_blocks == old(self).blocks@.len(),
                self.contexts() == old(self).contexts(),
                forall|t: int| 0 <= t < old(self).blocks().len() ==> (#[trigger] self.blocks()[t]).predecessors
                    == old(self).blocks()[t].predecessors,
                forall|t: int| 0 <= t < old(self).blocks().len() && t != common_succ.0 ==> (#[trigger] self.blocks()[t]).phi_set
                    == old(self).blocks()[t].phi_set,
                self.blocks()[common_succ.0 as int].predecessors@ == seq![br1, br2],
                strings_extend(old(self).strings(), self.strings()),
                self.valid_label(common_pred),
                self.valid_label(common_succ),
                self.valid_label(br1),
                self.valid_label(br2),
                i <= names@.len(),
                env0 == old(self).env,
                env0.wf(),
                env0.valid_frame(common_pred),
                env0.valid_frame(common_succ),
                env0.valid_frame(br1),
                env0.valid_frame(br2),
                ready ==> env0.frame_parent(common_succ) == Some(common_pred)
                    && env0.frame_locals(common_succ).dom() == Set::<Seq<char>>::empty()
                    && env0.shape_grows(self.env, Label(UNREACHABLE_LABEL_NO)),
                self.env.frame_count() == env0.frame_count(),
                start_reg == old(self).next_reg(),
                start_reg <= self.next_reg() <= start_reg + i,
                ready == old(self).phi_ready(common_pred, common_succ, vars),
                br1 == old(self).blocks()[common_succ.0 as int].predecessors@[0],
                br2 == old(self).blocks()[common_succ.0 as int].predecessors@[1],
                names_distinct(names@),
                forall|n: Seq<char>| #[trigger] names_contain(names@, n) <==> (env0.lookup(br2, n) is Some
                    || env0.lookup(br1, n) is Some),
                ready ==> vars.dom().finite() && names@.len() == vars.dom().len(),
                defs_since(old(self).blocks(), self.blocks(), old(self).next_reg()),
                defs_grow(old(self).blocks(), self.blocks()),
                self.open_regs() == old(self).open_regs(),
            decreases names@.len() - i,
        {
            let name = names[i].as_str();
            proof {
                assert(names_contain(names@, names@[i as int]@));
                if ready {
                    lemma_kept_defining_frame_shape(env0, self.env, common_pred, name@);
                    lemma_kept_defining_frame_shape(env0, self.env, br1, name@);
                    lemma_kept_defining_frame_shape(env0, self.env, br2, name@);
                    if env0.lookup(br1, name@) is Some {
                        assert(vars.contains_key(name@));
                    } else {
                        assert(vars.contains_key(name@));
                    }
                }
            }
            let ghost env_b = self.env;
            let value0 = match self.env.get_variable(common_pred, name) {
                Some(v) => v.clone(),
                None => return false,
            };
            let value1 = match self.env.get_variable(br1, name) {
                Some(v) => v.clone(),
                None => return false,
            };
            let value2 = match self.env.get_variable(br2, name) {
                Some(v) => v.clone(),
                None => return false,
            };
            proof {
                self.lemma_env_var_below(br1, name@, value1);
                self.lemma_env_var_below(br2, name@, value2);
            }
            if !value_eq(&value0, &value1) || !value_eq(&value0, &value2) {
                let new_value = if value_eq(&value1, &value2) {
                    value1
                } else {
                    let reg_num = match self.get_new_reg_num() {
                        Some(r) => r,
                        None => return false,
                    };
                    let reg_type = value1.get_type();
                    let incoming = vec![(value1, br1), (value2, br2)];
                    proof {
                        assert(phi_labels(incoming@) =~= seq![br1, br2]);
                    }
                    self.push_phi(common_succ, (reg_num, reg_type.clone(), incoming));
                    Value::Register(reg_num, reg_type)
                };
                let ghost env_m = self.env;
                let ghost gv = new_value;
                proof {
                    if ready {
                        lemma_shape_trans(env0, env_b, env_m, Label(UNREACHABLE_LABEL_NO), Label(UNREACHABLE_LABEL_NO));
                        lemma_empty_child_lookup(env_m, common_succ, common_pred, name@);
                        lemma_kept_defining_frame_shape(env0, env_m, common_pred, name@);
                        lemma_kept_defining_frame_shape(env0, env_m, br1, name@);
                    }
                }
                let updated = self.env.update_existing_local_variable(common_succ, name, new_value);
                proof {
                    lemma_env_below_set(env_m, self.env, env_m.defining_frame(common_succ, name@)->0, name@, gv,
                        self.next_reg_num.0, self.next_reg_num.0);
                    lemma_env_settled_set(env_m, self.env, env_m.defining_frame(common_succ, name@)->0, name@, gv, self.blocks@, self.blocks@, self.open_regs@, self.open_regs@);
                }
                if !updated {
                    return false;
                }
                proof {
                    if ready {
                        lemma_update_same_type(env_m, self.env, common_succ, name@, gv);
                        lemma_shape_trans(env0, env_m, self.env, Label(UNREACHABLE_LABEL_NO), Label(UNREACHABLE_LABEL_NO));
                    }
                }
            } else {
                proof {
                    if ready {
                        lemma_frames_kept_shape(env_b, self.env, Label(UNREACHABLE_LABEL_NO));
                        lemma_shape_trans(env0, env_b, self.env, Label(UNREACHABLE_LABEL_NO), Label(UNREACHABLE_LABEL_NO));
                    }
                }
            }
            i = i + 1;
        }
        true
    }

    /// Both branches of a conditional lead to block `succ`, and the variables of `vars`,
    /// with their types, are what block `pred` and each branch's end see.
    spec fn phi_ready(&self, pred: Label, succ: Label, vars: Map<Seq<char>, TypeModel>) -> bool {
        &&& self.env.frame_parent(succ) == Some(pred)
        &&& self.env.frame_locals(succ).dom() == Set::<Seq<char>>::empty()
        &&& self.blocks()[succ.0 as int].predecessors@.len() == 2
        &&& self.env.vars_typed(pred, vars)
        &&& self.env.vars_typed(self.blocks()[succ.0 as int].predecessors@[0], vars)
        &&& self.env.vars_typed(self.blocks()[succ.0 as int].predecessors@[1], vars)
    }

    /// Before a loop's condition is compiled: gives each variable seen from `pred_label` a
    /// fresh register in the condition block `cond_label`, to be defined by a phi function once
    /// the loop's body is compiled. Fails where the registers run out.
    fn prepare_env_and_stub_phi_set_for_loop_cond(
        &mut self,
        pred_label: Label,
        cond_label: Label,
        Ghost(vars): Ghost<Map<Seq<char>, TypeModel>>,
    ) -> (res: Option<LoopStub>)
        requires
            old(self).wf(),
            old(self).valid_label(pred_label),
            old(self).valid_label(cond_label),
            old(self).env.frame_parent(cond_label) == Some(pred_label),
            old(self).env.frame_locals(cond_label).dom() == Set::<Seq<char>>::empty(),
        ensures
            old(self).open_regs().subset_of(final(self).open_regs()),
            res matches Some(stub) ==> forall|r: RegNum| #[trigger] final(self).open_regs().contains(r) ==> old(self).open_regs().contains(r)
                || exists|k: int| 0 <= k < stub@.len() && stub_reg(stub@, k) == r,
            final(self).contexts() == old(self).contexts(),
            strings_extend(old(self).strings(), final(self).strings()),
            final(self).wf(),
            final(self).blocks() == old(self).blocks(),
            old(self).next_reg() <= final(self).next_reg(),
            old(self).env.shape_grows(final(self).env, Label(UNREACHABLE_LABEL_NO)),
            res matches Some(stub) ==> forall|k: int| 0 <= k < stub@.len()
                ==> old(self).env.lookup(pred_label, (#[trigger] stub@[k]).0@) is Some && stub@[k].2 is Register,
            res matches Some(stub) ==> forall|k: int| 0 <= k < stub@.len() ==> value_below((#[trigger] stub@[k]).1, final(self).next_reg()),
            res matches Some(stub) ==> forall|k: int| 0 <= k < stub@.len()
                ==> value_settled(final(self).blocks(), final(self).open_regs(), (#[trigger] stub@[k]).1),
            res matches Some(stub) ==> final(self).next_reg() == old(self).next_reg() + stub@.len()
                && forall|k: int| 0 <= k < stub@.len() ==> (#[trigger] stub_reg(stub@, k)).0 == old(self).next_reg() + k,
            old(self).env.vars_typed(pred_label, vars) ==> vars.dom().finite()
                && final(self).next_reg() <= old(self).next_reg() + vars.dom().len(),
            old(self).env.vars_typed(pred_label, vars) && old(self).next_reg() + vars.dom().len() < 4294967295
                ==> res is Some,
    {
        let ghost env0 = self.env;
        let ghost start_reg = self.next_reg();
        let names = self.env.get_all_visible_local_variables(pred_label);
        proof {
            if env0.vars_typed(pred_label, vars) {
                assert forall|n: Seq<char>| #[trigger] names_contain(names@, n) <==> vars.dom().contains(n) by {
                    if names_contain(names@, n) {
                        assert(env0.lookup(pred_label, n) is Some);
                    }
                    if vars.dom().contains(n) {
                        assert(vars.contains_key(n));
                    }
                }
                lemma_names_count(names@, vars.dom());
            }
            lemma_frames_kept_shape(env0, env0, Label(UNREACHABLE_LABEL_NO));
        }
        let mut stub_info: LoopStub = Vec::new();
        let mut i: usize = 0;
        while i < names.len()
            invariant
                self.wf(),
                self.blocks() == old(self).blocks(),
                strings_extend(old(self).strings(), self.strings()),
                self.contexts() == old(self).contexts(),
                self.valid_label(pred_label),
                self.valid_label(cond_label),
                i <= names@.len(),
                env0 == old(self).env,
                env0.wf(),
                env0.valid_frame(cond_label),
                env0.valid_frame(pred_label),
                env0.frame_parent(cond_label) == Some(pred_label),
                env0.frame_locals(cond_label).dom() == Set::<Seq<char>>::empty(),
                env0.shape_grows(self.env, Label(UNREACHABLE_LABEL_NO)),
                self.env.frame_count() == env0.frame_count(),
                start_reg == old(self).next_reg(),
                self.next_reg() == start_reg + i,
                names_distinct(names@),
                forall|n: Seq<char>| #[trigger] names_contain(names@, n) <==> env0.lookup(pred_label, n) is Some,
                env0.vars_typed(pred_label, vars) ==> vars.dom().finite() && names@.len() == vars.dom().len(),
                stub_info@.len() == i,
                forall|k: int| 0 <= k < i ==> env0.lookup(pred_label, (#[trigger] stub_info@[k]).0@) is Some
                    && stub_info@[k].2 is Register,
                forall|k: int| 0 <= k < i ==> (#[trigger] stub_reg(stub_info@, k)).0 == start_reg + k,
                forall|k: int| 0 <= k < i ==> value_below((#[trigger] stub_info@[k]).1, self.next_reg()),
                old(self).open_regs().subset_of(self.open_regs()),
                forall|r: RegNum| #[trigger] self.open_regs().contains(r) ==> old(self).open_regs().contains(r)
                    || exists|k: int| 0 <= k < i && stub_reg(stub_info@, k) == r,
                forall|k: int| 0 <= k < i ==> value_settled(self.blocks(), self.open_regs(), (#[trigger] stub_info@[k]).1),
            decreases names@.len() - i,
        {
            let name = names[i].as_str();
            proof {
                assert(names_contain(names@, names@[i as int]@));
                lemma_kept_defining_frame_shape(env0, self.env, pred_label, name@);
                lemma_kept_defining_frame_shape(env0, self.env, cond_label, name@);
                lemma_empty_child_lookup(env0, cond_label, pred_label, name@);
            }
            let value = match self.env.get_variable(pred_label, name) {
                Some(v) => v.clone(),
                None => return None,
            };
            let reg_num = match self.get_new_reg_num() {
                Some(r) => r,
                None => return None,
            };
            proof {
                self.lemma_env_var_below(pred_label, name@, value);
            }
            let phi_value = Value::Register(reg_num, value.get_type());
            let ghost stub_before = stub_info@;
            stub_info.push((names[i].clone(), value, phi_value.clone()));
            proof {
                assert(stub_info@[i as int].2@ == phi_value@);
                assert forall|k: int| 0 <= k < i + 1 implies value_below((#[trigger] stub_info@[k]).1, self.next_reg())
                    && value_settled(self.blocks(), self.open_regs(), stub_info@[k].1) by {
                    if k < i {
                        assert(stub_info@[k] == stub_before[k]);
                    }
                }
                assert forall|k: int| 0 <= k < i + 1 implies (#[trigger] stub_reg(stub_info@, k)).0 == start_reg + k by {
                    if k < i {
                        assert(stub_info@[k] == stub_before[k]);
                        assert(stub_reg(stub_before, k).0 == start_reg + k);
                    }
                }
            }
            let ghost o1 = self.open_regs@;
            let ghost o2 = o1.insert(reg_num);
            proof {
                lemma_settled_keep(self.blocks@, self.blocks@, o1, o2);
                lemma_env_settled_set(self.env, self.env, Label(ARGS_LABEL_NO), Seq::empty(), Value::LitInt(0),
                    self.blocks@, self.blocks@, o1, o2);
                assert forall|r: RegNum| #[trigger] o2.contains(r) implies old(self).open_regs().contains(r)
                    || exists|k: int| 0 <= k < i + 1 && stub_reg(stub_info@, k) == r by {
                    if r == reg_num {
                        assert(stub_reg(stub_info@, i as int) == r);
                    } else if !old(self).open_regs().contains(r) {
                        let k = choose|k: int| 0 <= k < i && stub_reg(stub_before, k) == r;
                        assert(stub_info@[k] == stub_before[k]);
                        assert(stub_reg(stub_info@, k) == r);
                    }
                }
            }
            self.open_regs = Ghost(o2);
            let ghost env_b = self.env;
            let updated = self.env.update_existing_local_variable(cond_label, name, phi_value);
            proof {
                lemma_env_below_set(env_b, self.env, env_b.defining_frame(cond_label, name@)->0, name@, phi_value,
                    self.next_reg_num.0, self.next_reg_num.0);
                lemma_env_settled_set(env_b, self.env, env_b.defining_frame(cond_label, name@)->0, name@, phi_value, self.blocks@, self.blocks@, self.open_regs@, self.open_regs@);
            }
            if !updated {
                return None;
            }
            proof {
                lemma_update_same_type(env_b, self.env, cond_label, name@, phi_value);
                lemma_shape_trans(env0, env_b, self.env, Label(UNREACHABLE_LABEL_NO), Label(UNREACHABLE_LABEL_NO));
            }
            i = i + 1;
        }
        Some(stub_info)
    }

    /// Once a loop's body is compiled: adds to the condition block `cond_label` the phi
    /// functions that `stub_info` announced, each taking the value on entry from `pred_label`
    /// and, where the body's end is reachable, the value at the end of the body. Fails where
    /// the condition block has neither one nor two predecessors.
    fn finalize_phi_set_for_loop_cond(&mut self, pred_label: Label, cond_label: Label, stub_info: LoopStub) -> (res: bool)
        requires
            old(self).wf(),
            old(self).valid_label(pred_label),
            old(self).valid_label(cond_label),
            old(self).blocks()[cond_label.0 as int].predecessors@.len() > 0 ==> old(self).blocks()[cond_label.0 as int].predecessors@[0] == pred_label,
            forall|k: int| 0 <= k < stub_info@.len() ==> !defines(old(self).blocks(), #[trigger] stub_reg(stub_info@, k))
                && stub_reg(stub_info@, k).0 < old(self).next_reg(),
            forall|k1: int, k2: int| 0 <= k1 < stub_info@.len() && 0 <= k2 < stub_info@.len() && k1 != k2
                ==> #[trigger] stub_reg(stub_info@, k1) != #[trigger] stub_reg(stub_info@, k2),
            forall|k: int| 0 <= k < stub_info@.len() ==> value_below((#[trigger] stub_info@[k]).1, old(self).next_reg()),
            forall|k: int| 0 <= k < stub_info@.len() ==> value_settled(old(self).blocks(), old(self).open_regs(), (#[trigger] stub_info@[k]).1),
        ensures
            final(self).open_regs() == old(self).open_regs(),
            defs_grow(old(self).blocks(), final(self).blocks()),
            res ==> forall|k: int| 0 <= k < stub_info@.len() ==> defines(final(self).blocks(), #[trigger] stub_reg(stub_info@, k)),
            forall|r: RegNum| #[trigger] defines(final(self).blocks(), r) ==> defines(old(self).blocks(), r)
                || exists|k: int| 0 <= k < stub_info@.len() && stub_reg(stub_info@, k) == r,
            forall|t: int| 0 <= t < old(self).blocks().len() ==> (#[trigger] final(self).blocks()[t]).predecessors
                == old(self).blocks()[t].predecessors,
            forall|t: int| 0 <= t < old(self).blocks().len() && t != cond_label.0 ==> (#[trigger] final(self).blocks()[t]).phi_set
                == old(self).blocks()[t].phi_set,
            final(self).contexts() == old(self).contexts(),
            strings_extend(old(self).strings(), final(self).strings()),
            final(self).wf(),
            final(self).blocks().len() == old(self).blocks().len(),
            final(self).env == old(self).env,
            final(self).next_reg() == old(self).next_reg(),
            (old(self).blocks()[cond_label.0 as int].predecessors@.len() == 1
                || (old(self).blocks()[cond_label.0 as int].predecessors@.len() == 2
                    && forall|k: int| 0 <= k < stub_info@.len() ==> old(self).env.lookup(
                        old(self).blocks()[cond_label.0 as int].predecessors@[1], (#[trigger] stub_info@[k]).0@) is Some))
                && (forall|k: int| 0 <= k < stub_info@.len() ==> (#[trigger] stub_info@[k]).2 is Register) ==> res,
    {
        let cond_block = self.get_block(cond_label);
        let n_preds = cond_block.predecessors.len();
        let end_body_label = if n_preds == 1 {
            Label(UNREACHABLE_LABEL_NO)
        } else if n_preds == 2 {
            let p0 = cond_block.predecessors[0];
            let p1 = cond_block.predecessors[1];
            if p0 != pred_label { p0 } else { p1 }
        } else {
            return false;
        };
        proof {
            if n_preds == 2 {
                assert(pred_ok(self.blocks@, cond_label.0 as int, self.blocks@[cond_label.0 as int].predecessors@[0]));
                assert(pred_ok(self.blocks@, cond_label.0 as int, self.blocks@[cond_label.0 as int].predecessors@[1]));
                assert(self.blocks@[cond_label.0 as int].predecessors@ =~= seq![pred_label, end_body_label]);
            } else {
                assert(self.blocks@[cond_label.0 as int].predecessors@ =~= seq![pred_label]);
            }
        }
        let ghost preds = self.blocks@[cond_label.0 as int].predecessors@;
        let ghost n_blocks = self.blocks@.len();
        let mut i: usize = 0;
        while i < stub_info.len()
            invariant
                self.wf(),
                self.blocks@.len() == n_blocks,
                n_blocks == old(self).blocks@.len(),
                self.contexts() == old(self).contexts(),
                forall|t: int| 0 <= t < old(self).blocks().len() ==> (#[trigger] self.blocks()[t]).predecessors
                    == old(self).blocks()[t].predecessors,
                strings_extend(old(self).strings(), self.strings()),
                self.valid_label(pred_label),
                self.valid_label(cond_label),
                end_body_label.0 == UNREACHABLE_LABEL_NO || self.valid_label(end_body_label),
                forall|t: int| 0 <= t < old(self).blocks().len() && t != cond_label.0 ==> (#[trigger] self.blocks()[t]).phi_set
                    == old(self).blocks()[t].phi_set,
                preds == self.blocks()[cond_label.0 as int].predecessors@,
                end_body_label.0 == UNREACHABLE_LABEL_NO ==> preds == seq![pred_label],
                end_body_label.0 != UNREACHABLE_LABEL_NO ==> preds == seq![pred_label, end_body_label],
                i <= stub_info@.len(),
                self.env == old(self).env,
                self.next_reg() == old(self).next_reg(),
                preds == old(self).blocks()[cond_label.0 as int].predecessors@,
                forall|k: int| i <= k < stub_info@.len() ==> !defines(self.blocks(), #[trigger] stub_reg(stub_info@, k))
                    && stub_reg(stub_info@, k).0 < old(self).next_reg(),
                forall|k1: int, k2: int| 0 <= k1 < stub_info@.len() && 0 <= k2 < stub_info@.len() && k1 != k2
                    ==> #[trigger] stub_reg(stub_info@, k1) != #[trigger] stub_reg(stub_info@, k2),
                forall|r: RegNum| #[trigger] defines(self.blocks(), r) ==> defines(old(self).blocks(), r)
                    || exists|k: int| 0 <= k < i && stub_reg(stub_info@, k) == r,
                forall|k: int| 0 <= k < stub_info@.len() ==> value_below((#[trigger] stub_info@[k]).1, old(self).next_reg()),
                forall|k: int| 0 <= k < stub_info@.len() ==> value_settled(old(self).blocks(), old(self).open_regs(), (#[trigger] stub_info@[k]).1),
                self.open_regs() == old(self).open_regs(),
                defs_grow(old(self).blocks(), self.blocks()),
                forall|k: int| 0 <= k < i ==> defines(self.blocks(), #[trigger] stub_reg(stub_info@, k)),
            decreases stub_info@.len() - i,
        {
            let entry = &stub_info[i];
            let v0 = entry.1.clone();
            proof {
                assert(value_below(stub_info@[i as int].1, old(self).next_reg()));
                assert(value_settled(old(self).blocks(), old(self).open_regs(), stub_info@[i as int].1));
                lemma_view_below(entry.1, v0, self.next_reg_num.0);
                assert(value_settled(self.blocks(), self.open_regs(), v0));
            }
            let mut phi_vec: Vec<(Value, Label)> = vec![(v0, pred_label)];
            if end_body_label.0 != UNREACHABLE_LABEL_NO {
                let value2 = match self.env.get_variable(end_body_label, entry.0.as_str()) {
                    Some(v) => v.clone(),
                    None => return false,
                };
                proof {
                    self.lemma_env_var_below(end_body_label, entry.0@, value2);
                }
                phi_vec.push((value2, end_body_label));
            }
            proof {
                if end_body_label.0 == UNREACHABLE_LABEL_NO {
                    assert(phi_labels(phi_vec@) =~= seq![pred_label]);
                } else {
                    assert(phi_labels(phi_vec@) =~= seq![pred_label, end_body_label]);
                }
            }
            match &entry.2 {
                Value::Register(reg_num, reg_type) => {
                    let ghost before = self.blocks();
                    proof {
                        assert(stub_reg(stub_info@, i as int) == *reg_num);
                    }
                    self.push_phi(cond_label, (*reg_num, reg_type.clone(), phi_vec));
                    proof {
                        assert forall|k: int| 0 <= k < i + 1 implies defines(self.blocks(), #[trigger] stub_reg(stub_info@, k)) by {
                            if k < i {
                                assert(defines(before, stub_reg(stub_info@, k)));
                            }
                        }
                        assert forall|k: int| i + 1 <= k < stub_info@.len() implies !defines(self.blocks(), #[trigger] stub_reg(stub_info@, k)) by {
                            assert(stub_reg(stub_info@, k) != stub_reg(stub_info@, i as int));
                        }
                        assert forall|r: RegNum| #[trigger] defines(self.blocks(), r) implies defines(old(self).blocks(), r)
                            || exists|k: int| 0 <= k < i + 1 && stub_reg(stub_info@, k) == r by {
                            if !defines(before, r) {
                                assert(stub_reg(stub_info@, i as int) == r);
                            }
                        }
                    }
                },
                _ => return false,
            }
            i = i + 1;
        }
        true
    }
}


impl<'a> FunctionCodeGen<'a> {
    /// Whether `l` is a block label or the label that says control never gets there.
    pub open spec fn valid_or_unreachable(&self, l: Label) -> bool {
        l.0 == UNREACHABLE_LABEL_NO || self.valid_label(l)
    }

    /// A new block whose frame continues frame `parent`, or `None` where labels run out.
    fn new_block_after(&mut self, parent: Label) -> (res: Option<Label>)
        requires
            old(self).wf(),
            old(self).valid_label(parent),
        ensures
            ops_kept(old(self).blocks(), final(self).blocks()),
            final(self).open_regs() == old(self).open_regs(),
            defs_grow(old(self).blocks(), final(self).blocks()),
            final(self).contexts() == old(self).contexts(),
            strings_extend(old(self).strings(), final(self).strings()),
            final(self).wf(),
            final(self).blocks().len() >= old(self).blocks().len(),
            res matches Some(l) ==> final(self).valid_label(l),
            res is Some ==> final(self).blocks().len() == old(self).blocks().len() + 1,
            res is None ==> final(self).blocks().len() == old(self).blocks().len()
                && old(self).blocks().len() + 1 >= 4294967294,
            final(self).next_reg() == old(self).next_reg(),
            res matches Some(l) ==> l.0 == old(self).blocks().len()
                && final(self).blocks()[l.0 as int].predecessors@.len() == 0
                && final(self).blocks()[l.0 as int].phi_set@.len() == 0,
            forall|i: int| 0 <= i < old(self).blocks().len() ==> #[trigger] final(self).blocks()[i] == old(self).blocks()[i],
            old(self).env.frames_kept(final(self).env),
            res matches Some(l) ==> !old(self).env.valid_frame(l) && final(self).env.valid_frame(l)
                && final(self).env.frame_parent(l) == Some(parent)
                && final(self).env.frame_locals(l).dom() == Set::<Seq<char>>::empty(),
            forall|r: RegNum| #[trigger] defines(final(self).blocks(), r) == defines(old(self).blocks(), r),
    {
        self.allocate_new_block(parent)
    }

    /// Compiles a block of statements. With `allocate_new_label` the statements go into a new
    /// block that block `parent_label` jumps to, else into block `parent_label` itself. Gives
    /// the block where control is after the statements, or the unreachable label where they
    /// always return or loop forever. Fails where a statement holds a construct that is not
    /// generated, a name that no frame declares, or a name declared twice in one frame.
    fn process_block(
        &mut self,
        block: &ast::Block,
        parent_label: Label,
        allocate_new_label: bool,
        Ghost(sc): Ghost<CgScope>,
        Ghost(vmax): Ghost<nat>,
    ) -> (res: Option<Label>)
        requires
            old(self).wf(),
            old(self).valid_label(parent_label),
            sc.ok ==> old(self).env.vars_typed(parent_label, sc.vars),
            sc.ok ==> sc.vars.dom().finite() && sc.vars.dom().len() + stmts_size(block.stmts@) <= vmax,
            sc.ok && !allocate_new_label ==> old(self).env.frame_locals(parent_label).dom().subset_of(sc.declared),
        ensures
            !allocate_new_label && block.stmts@.len() > 0 && block.stmts@[0].inner is Ret ==> stmt_effect(
                env_vals(old(self).env, parent_label), old(self).next_reg(), parent_label, block.stmts@[0].inner, res,
                final(self).blocks(), final(self).env),
            res is Some ==> final(self).open_regs() == old(self).open_regs(),
            old(self).open_regs().subset_of(final(self).open_regs()),
            defs_grow(old(self).blocks(), final(self).blocks()),
            defs_since(old(self).blocks(), final(self).blocks(), old(self).next_reg()),
            strings_extend(old(self).strings(), final(self).strings()),
            final(self).wf(),
            keeps_old(old(self).blocks(), final(self).blocks()),
            res matches Some(l) ==> final(self).valid_or_unreachable(l),
            final(self).contexts() == old(self).contexts(),
            old(self).next_reg() <= final(self).next_reg(),
            cg_stmts(old(self).functions(), sc, block.stmts@).ok ==> old(self).next_reg() <= final(self).next_reg()
                <= old(self).next_reg() + stmts_regs(block.stmts@, vmax)
                && final(self).blocks().len() <= old(self).blocks().len() + 4 * stmts_size(block.stmts@)
                    + (if allocate_new_label { 1int } else { 0int })
                && old(self).env.shape_grows(final(self).env,
                    if allocate_new_label { Label(UNREACHABLE_LABEL_NO) } else { parent_label })
                && (res matches Some(l) ==> (l.0 != UNREACHABLE_LABEL_NO
                    ==> final(self).env.vars_typed(l, cg_stmts(old(self).functions(), sc, block.stmts@).vars))),
            cg_stmts(old(self).functions(), sc, block.stmts@).ok
                && cg_stmts(old(self).functions(), sc, block.stmts@).declared == Set::<Seq<char>>::empty()
                ==> old(self).env.shape_grows(final(self).env, Label(UNREACHABLE_LABEL_NO)),
            cg_stmts(old(self).functions(), sc, block.stmts@).ok && !old(self).in_method()
                && old(self).next_reg() + stmts_regs(block.stmts@, vmax) < 4294967295
                && old(self).blocks().len() + 4 * stmts_size(block.stmts@) + 2 < 4294967294 ==> res is Some,
        decreases *block, 3nat,
    {
        let ghost fns = old(self).functions();
        let ghost ss = block.stmts@;
        let ghost start_reg = old(self).next_reg() as int;
        let ghost start_blocks = old(self).blocks().len() as int;
        let ghost extra: int = if allocate_new_label { 1int } else { 0int };
        let ghost okb = cg_stmts(fns, sc, ss).ok;
        let ghost env0 = self.env;
        proof {
            lemma_stmts_size_take(ss, 0);
            assert(ss.take(0) =~= Seq::<Box<ast::Stmt>>::empty());
            lemma_cg_stmts_take(fns, sc, ss, 0);
            lemma_stmts_regs_take(ss, vmax, 0);
        }
        let first_label = if allocate_new_label {
            let new_label = match self.new_block_after(parent_label) {
                Some(l) => l,
                None => return None,
            };
            self.add_branch1_op(parent_label, new_label);
            proof {
                lemma_frames_kept_shape(env0, self.env, new_label);
                if sc.ok {
                    lemma_frames_kept_vars_typed(env0, self.env, parent_label, sc.vars);
                    lemma_empty_child_vars_typed(self.env, new_label, parent_label, sc.vars);
                }
            }
            new_label
        } else {
            proof {
                lemma_frames_kept_shape(env0, self.env, parent_label);
            }
            parent_label
        };
        let mut cur_label = first_label;
        proof {
            assert forall|j: int| 0 <= j < block.stmts@.len() implies decreases_to!(*block => (#[trigger] block.stmts@[j]).inner) by {
                assert(decreases_to!(*block => block.stmts));
                assert(decreases_to!(block.stmts => block.stmts@));
                assert(decreases_to!(block.stmts@ => block.stmts@[j]));
            }
        }
        let mut i: usize = 0;
        while i < block.stmts.len()
            invariant
                self.wf(),
                self.valid_label(cur_label),
                keeps_old(old(self).blocks(), self.blocks()),
                strings_extend(old(self).strings(), self.strings()),
                i <= block.stmts@.len(),
                forall|j: int| 0 <= j < block.stmts@.len() ==> decreases_to!(*block => (#[trigger] block.stmts@[j]).inner),
                self.contexts() == old(self).contexts(),
                fns == old(self).functions(),
                ss == block.stmts@,
                okb == cg_stmts(fns, sc, ss).ok,
                okb ==> cg_stmts(fns, sc, ss.take(i as int)).ok,
                start_reg == old(self).next_reg(),
                start_blocks == old(self).blocks().len(),
                okb ==> start_reg <= self.next_reg() <= start_reg + stmts_regs(ss.take(i as int), vmax),
                sc.ok ==> sc.vars.dom().finite() && sc.vars.dom().len() + stmts_size(ss) <= vmax,
                cg_stmts(fns, sc, ss.take(i as int)).ok ==> cg_stmts(fns, sc, ss.take(i as int)).vars.dom().finite()
                    && cg_stmts(fns, sc, ss.take(i as int)).vars.dom().len() <= sc.vars.dom().len() + stmts_size(ss.take(i as int)),
                okb ==> self.blocks().len() <= start_blocks + extra + 4 * stmts_size(ss.take(i as int)),
                extra == (if allocate_new_label { 1int } else { 0int }),
                extra <= 1,
                env0 == old(self).env,
                env0.wf(),
                env0.frame_count() == start_blocks,
                cur_label == first_label || start_blocks <= cur_label.0,
                defs_since(old(self).blocks(), self.blocks(), old(self).next_reg()),
                defs_grow(old(self).blocks(), self.blocks()),
                self.open_regs() == old(self).open_regs(),
                old(self).next_reg() <= self.next_reg(),
                i == 0 && !allocate_new_label ==> self.env == old(self).env && self.next_reg() == old(self).next_reg()
                    && cur_label == parent_label,
                i > 0 && !allocate_new_label ==> !(block.stmts@[0].inner is Ret),
                allocate_new_label ==> start_blocks <= first_label.0 && self.valid_label(first_label),
                !allocate_new_label ==> first_label == parent_label && env0.valid_frame(first_label),
                !allocate_new_label && cg_stmts(fns, sc, ss.take(i as int)).ok ==> self.env.frame_locals(first_label).dom().subset_of(
                    env0.frame_locals(first_label).dom().union(cg_stmts(fns, sc, ss.take(i as int)).declared)),
                cg_stmts(fns, sc, ss.take(i as int)).ok ==> env0.shape_grows(self.env, first_label)
                    && self.env.vars_typed(cur_label, cg_stmts(fns, sc, ss.take(i as int)).vars)
                    && self.env.frame_locals(cur_label).dom().subset_of(cg_stmts(fns, sc, ss.take(i as int)).declared),
            decreases block.stmts@.len() - i,
        {
            proof {
                assert(decreases_to!(*block => block.stmts@[i as int].inner));
                lemma_stmts_size_take(ss, i as int);
                lemma_stmts_size_take(ss, i + 1);
                lemma_stmts_size_take(ss, ss.len() as int);
                assert(ss.take(ss.len() as int) =~= ss);
                lemma_cg_stmts_take(fns, sc, ss, i as int);
                lemma_cg_stmts_take(fns, sc, ss, i + 1);
                lemma_cg_stmt_sticky(fns, cg_stmts(fns, sc, ss.take(i as int)), ss[i as int].inner);
                lemma_stmts_regs_take(ss, vmax, i as int);
                lemma_stmts_regs_take(ss, vmax, i + 1);
                lemma_stmts_regs_take(ss, vmax, ss.len() as int);
                if cg_stmts(fns, sc, ss.take(i as int)).ok {
                    lemma_cg_stmt_vcount(fns, cg_stmts(fns, sc, ss.take(i as int)), ss[i as int].inner);
                    lemma_cg_stmts_sticky(fns, sc, ss.take(i as int));
                }
            }
            let ghost sc_i = cg_stmts(fns, sc, ss.take(i as int));
            let ghost env_i = self.env;
            let ghost label_i = cur_label;
            let ghost next_i = self.next_reg();
            let r = self.process_stmt(&block.stmts[i].inner, cur_label, Ghost(sc_i), Ghost(vmax));
            proof {
                if cg_stmt(fns, sc_i, ss[i as int].inner).ok {
                    lemma_shape_trans(env0, env_i, self.env, first_label, label_i);
                    if okb && allocate_new_label {
                        lemma_shape_retarget(env0, self.env, first_label, Label(UNREACHABLE_LABEL_NO));
                    }
                    if !allocate_new_label {
                        lemma_cg_stmt_undeclared(fns, sc_i, ss[i as int].inner);
                        if label_i != first_label {
                            assert(env_i.valid_frame(first_label));
                            assert(self.env.frame_locals(first_label).dom() == env_i.frame_locals(first_label).dom());
                        }
                        assert(self.env.frame_locals(first_label).dom().subset_of(
                            env0.frame_locals(first_label).dom().union(cg_stmts(fns, sc, ss.take(i + 1)).declared)));
                        if okb && cg_stmts(fns, sc, ss).declared == Set::<Seq<char>>::empty() {
                            assert(cg_stmts(fns, sc, ss.take(i + 1)).declared =~= Set::<Seq<char>>::empty());
                            lemma_shape_settle(env0, self.env, first_label);
                        }
                    }
                }
            }
            let next = match r {
                Some(l) => l,
                None => return None,
            };
            if next.0 == UNREACHABLE_LABEL_NO {
                proof {
                    if i == 0 && !allocate_new_label && block.stmts@[0].inner is Ret {
                        assert(stmt_effect(env_vals(env_i, label_i), next_i, label_i, block.stmts@[0].inner, r,
                            self.blocks(), self.env));
                        assert(next == Label(UNREACHABLE_LABEL_NO));
                    }
                }
                return Some(Label(UNREACHABLE_LABEL_NO));
            }
            cur_label = next;
            i = i + 1;
        }
        proof {
            assert(ss.take(ss.len() as int) =~= ss);
            if okb && allocate_new_label {
                lemma_shape_retarget(env0, self.env, first_label, Label(UNREACHABLE_LABEL_NO));
            }
            if okb && !allocate_new_label && cg_stmts(fns, sc, ss).declared == Set::<Seq<char>>::empty() {
                lemma_shape_settle(env0, self.env, first_label);
            }
        }
        Some(cur_label)
    }

    /// Compiles one statement starting in block `cur_label`: gives the block where control is
    /// after it, or the unreachable label where the statement always returns or loops forever.
    /// Fails where the statement holds a construct that is not generated, a name that no frame
    /// declares, or a name declared twice in one frame.
    #[verifier::rlimit(50)]
    fn process_stmt(
        &mut self,
        stmt: &ast::InnerStmt,
        cur_label: Label,
        Ghost(sc): Ghost<CgScope>,
        Ghost(vmax): Ghost<nat>,
    ) -> (res: Option<Label>)
        requires
            old(self).wf(),
            old(self).valid_label(cur_label),
            sc.ok ==> old(self).env.vars_typed(cur_label, sc.vars)
                && old(self).env.frame_locals(cur_label).dom().subset_of(sc.declared),
            sc.ok ==> sc.vars.dom().finite() && sc.vars.dom().len() + stmt_size(*stmt) <= vmax,
        ensures
            stmt_effect(env_vals(old(self).env, cur_label), old(self).next_reg(), cur_label, *stmt, res, final(self).blocks(), final(self).env),
            res is Some ==> final(self).open_regs() == old(self).open_regs(),
            old(self).open_regs().subset_of(final(self).open_regs()),
            defs_grow(old(self).blocks(), final(self).blocks()),
            defs_since(old(self).blocks(), final(self).blocks(), old(self).next_reg()),
            strings_extend(old(self).strings(), final(self).strings()),
            final(self).wf(),
            keeps_old(old(self).blocks(), final(self).blocks()),
            res matches Some(l) ==> final(self).valid_or_unreachable(l),
            res matches Some(l) ==> l.0 == UNREACHABLE_LABEL_NO || l == cur_label || old(self).blocks().len() <= l.0,
            final(self).contexts() == old(self).contexts(),
            old(self).next_reg() <= final(self).next_reg(),
            cg_stmt(old(self).functions(), sc, *stmt).ok ==> old(self).next_reg() <= final(self).next_reg()
                <= old(self).next_reg() + stmt_regs(*stmt, vmax)
                && final(self).blocks().len() <= old(self).blocks().len() + 4 * stmt_size(*stmt)
                && old(self).env.shape_grows(final(self).env, cur_label)
                && final(self).env.frame_locals(cur_label).dom().subset_of(
                    old(self).env.frame_locals(cur_label).dom().union(cg_stmt(old(self).functions(), sc, *stmt).declared))
                && (res matches Some(l) ==> (l.0 != UNREACHABLE_LABEL_NO ==> final(self).env.vars_typed(l, cg_stmt(old(self).functions(), sc, *stmt).vars)
                    && final(self).env.frame_locals(l).dom().subset_of(cg_stmt(old(self).functions(), sc, *stmt).declared))),
            cg_stmt(old(self).functions(), sc, *stmt).ok && !old(self).in_method()
                && old(self).next_reg() + stmt_regs(*stmt, vmax) < 4294967295
                && old(self).blocks().len() + 4 * stmt_size(*stmt) + 1 < 4294967294 ==> res is Some,
        decreases *stmt, 2nat,
    {
        let ghost fns = old(self).functions();
        proof {
            lemma_cg_stmt_sticky(fns, sc, *stmt);
        }
        match stmt {
            ast::InnerStmt::Block(bl) => {
                let ghost e0 = self.env;
                let r = self.process_nested_block(bl, cur_label, Ghost(sc), Ghost(vmax));
                proof {
                    if cg_stmt(fns, sc, *stmt).ok {
                        lemma_shape_retarget(e0, self.env, Label(UNREACHABLE_LABEL_NO), cur_label);
                        assert(e0.valid_frame(cur_label));
                        assert(self.env.frame_locals(cur_label).dom() == e0.frame_locals(cur_label).dom());
                        assert(old(self).next_reg() <= self.next_reg() <= old(self).next_reg() + stmt_regs(*stmt, vmax));
                        assert(self.blocks().len() <= old(self).blocks().len() + 4 * stmt_size(*stmt));
                    }
                }
                r
            },
            ast::InnerStmt::Cond { .. } => {
                let ghost e0 = self.env;
                let r = self.process_if(stmt, cur_label, Ghost(sc), Ghost(vmax));
                proof {
                    if cg_stmt(fns, sc, *stmt).ok {
                        lemma_shape_retarget(e0, self.env, Label(UNREACHABLE_LABEL_NO), cur_label);
                        assert(e0.valid_frame(cur_label));
                        assert(self.env.frame_locals(cur_label).dom() == e0.frame_locals(cur_label).dom());
                        assert(old(self).next_reg() <= self.next_reg() <= old(self).next_reg() + stmt_regs(*stmt, vmax));
                        assert(self.blocks().len() <= old(self).blocks().len() + 4 * stmt_size(*stmt));
                    }
                }
                r
            },
            ast::InnerStmt::While(..) => {
                let ghost e0 = self.env;
                let r = self.process_while(stmt, cur_label, Ghost(sc), Ghost(vmax));
                proof {
                    if cg_stmt(fns, sc, *stmt).ok {
                        lemma_shape_retarget(e0, self.env, Label(UNREACHABLE_LABEL_NO), cur_label);
                        assert(e0.valid_frame(cur_label));
                        assert(self.env.frame_locals(cur_label).dom() == e0.frame_locals(cur_label).dom());
                        assert(old(self).next_reg() <= self.next_reg() <= old(self).next_reg() + stmt_regs(*stmt, vmax));
                        assert(self.blocks().len() <= old(self).blocks().len() + 4 * stmt_size(*stmt));
                    }
                }
                r
            },
            _ => self.process_simple_stmt(stmt, cur_label, Ghost(sc)),
        }
    }

    /// Compiles a block of statements nested in block `cur_label`: the statements go into a new
    /// block that `cur_label` jumps to, and the block after them continues the frame of
    /// `cur_label`, so that what the nested block declares is not seen after it. Gives that
    /// block, or the unreachable label where the statements always return or loop forever.
    fn process_nested_block(
        &mut self,
        block: &ast::Block,
        cur_label: Label,
        Ghost(sc): Ghost<CgScope>,
        Ghost(vmax): Ghost<nat>,
    ) -> (res: Option<Label>)
        requires
            old(self).wf(),
            old(self).valid_label(cur_label),
            sc.ok ==> old(self).env.vars_typed(cur_label, sc.vars),
            sc.ok ==> sc.vars.dom().finite() && sc.vars.dom().len() + stmts_size(block.stmts@) <= vmax,
        ensures
            res is Some ==> final(self).open_regs() == old(self).open_regs(),
            old(self).open_regs().subset_of(final(self).open_regs()),
            defs_grow(old(self).blocks(), final(self).blocks()),
            defs_since(old(self).blocks(), final(self).blocks(), old(self).next_reg()),
            strings_extend(old(self).strings(), final(self).strings()),
            final(self).wf(),
            keeps_old(old(self).blocks(), final(self).blocks()),
            res matches Some(l) ==> final(self).valid_or_unreachable(l),
            res matches Some(l) ==> l.0 == UNREACHABLE_LABEL_NO || l == cur_label || old(self).blocks().len() <= l.0,
            final(self).contexts() == old(self).contexts(),
            old(self).next_reg() <= final(self).next_reg(),
            cg_stmts(old(self).functions(), inner_scope(sc), block.stmts@).ok ==> old(self).next_reg() <= final(self).next_reg()
                <= old(self).next_reg() + stmts_regs(block.stmts@, vmax)
                && final(self).blocks().len() <= old(self).blocks().len() + 2 + 4 * stmts_size(block.stmts@)
                && old(self).env.shape_grows(final(self).env, Label(UNREACHABLE_LABEL_NO))
                && (res matches Some(l) ==> (l.0 != UNREACHABLE_LABEL_NO ==> final(self).env.vars_typed(l, sc.vars)
                    && final(self).env.frame_locals(l).dom() == Set::<Seq<char>>::empty())),
            cg_stmts(old(self).functions(), inner_scope(sc), block.stmts@).ok && !old(self).in_method()
                && old(self).next_reg() + stmts_regs(block.stmts@, vmax) < 4294967295
                && old(self).blocks().len() + 4 * stmts_size(block.stmts@) + 3 < 4294967294 ==> res is Some,
        decreases *block, 4nat,
    {
        let ghost fns = old(self).functions();
        let ghost ok = cg_stmts(fns, inner_scope(sc), block.stmts@).ok;
        let ghost e0 = self.env;
        proof {
            lemma_cg_stmts_sticky(fns, inner_scope(sc), block.stmts@);
        }
        let end_label = match self.process_block(block, cur_label, true, Ghost(inner_scope(sc)), Ghost(vmax)) {
            Some(l) => l,
            None => return None,
        };
        if end_label.0 == UNREACHABLE_LABEL_NO {
            return Some(Label(UNREACHABLE_LABEL_NO));
        }
        let ghost e1 = self.env;
        let cont_label = match self.new_block_after(cur_label) {
            Some(l) => l,
            None => {
                proof {
                    if ok {
                        lemma_frames_kept_shape(e1, self.env, Label(UNREACHABLE_LABEL_NO));
                        lemma_shape_trans(e0, e1, self.env, Label(UNREACHABLE_LABEL_NO), Label(UNREACHABLE_LABEL_NO));
                    }
                }
                return None;
            },
        };
        self.add_branch1_op(end_label, cont_label);
        proof {
            if ok {
                lemma_frames_kept_shape(e1, self.env, Label(UNREACHABLE_LABEL_NO));
                lemma_shape_trans(e0, e1, self.env, Label(UNREACHABLE_LABEL_NO), Label(UNREACHABLE_LABEL_NO));
                lemma_shape_vars_typed(e0, e1, Label(UNREACHABLE_LABEL_NO), cur_label, sc.vars);
                lemma_frames_kept_vars_typed(e1, self.env, cur_label, sc.vars);
                lemma_empty_child_vars_typed(self.env, cont_label, cur_label, sc.vars);
            }
        }
        Some(cont_label)
    }

    /// Compiles a conditional starting in block `cur_label`. Where the condition is a literal,
    /// only the branch it selects is compiled, as a nested block. Else the condition becomes
    /// jumps to the two branches, whose blocks continue the frame of `cur_label`, and the block
    /// after the conditional merges the variables at the ends of the branches that reach it.
    /// Gives that block, or the unreachable label where no branch reaches it. Fails where a part
    /// holds a construct that is not generated, where a branch declares a variable that the
    /// merge then looks for before the conditional, or where the registers or labels run out.
    #[verifier::rlimit(100)]
    fn process_if(
        &mut self,
        stmt: &ast::InnerStmt,
        cur_label: Label,
        Ghost(sc): Ghost<CgScope>,
        Ghost(vmax): Ghost<nat>,
    ) -> (res: Option<Label>)
        requires
            old(self).wf(),
            old(self).valid_label(cur_label),
            stmt is Cond,
            sc.ok ==> old(self).env.vars_typed(cur_label, sc.vars)
                && old(self).env.frame_locals(cur_label).dom().subset_of(sc.declared),
            sc.ok ==> sc.vars.dom().finite() && sc.vars.dom().len() + stmt_size(*stmt) <= vmax,
        ensures
            res is Some ==> final(self).open_regs() == old(self).open_regs(),
            old(self).open_regs().subset_of(final(self).open_regs()),
            defs_grow(old(self).blocks(), final(self).blocks()),
            defs_since(old(self).blocks(), final(self).blocks(), old(self).next_reg()),
            strings_extend(old(self).strings(), final(self).strings()),
            final(self).wf(),
            keeps_old(old(self).blocks(), final(self).blocks()),
            res matches Some(l) ==> final(self).valid_or_unreachable(l),
            res matches Some(l) ==> l.0 == UNREACHABLE_LABEL_NO || l == cur_label || old(self).blocks().len() <= l.0,
            final(self).contexts() == old(self).contexts(),
            old(self).next_reg() <= final(self).next_reg(),
            cg_stmt(old(self).functions(), sc, *stmt).ok ==> old(self).next_reg() <= final(self).next_reg()
                <= old(self).next_reg() + stmt_regs(*stmt, vmax)
                && final(self).blocks().len() <= old(self).blocks().len() + 4 * stmt_size(*stmt)
                && old(self).env.shape_grows(final(self).env, Label(UNREACHABLE_LABEL_NO))
                && (res matches Some(l) ==> (l.0 != UNREACHABLE_LABEL_NO ==> final(self).env.vars_typed(l, cg_stmt(old(self).functions(), sc, *stmt).vars)
                    && final(self).env.frame_locals(l).dom().subset_of(cg_stmt(old(self).functions(), sc, *stmt).declared))),
            cg_stmt(old(self).functions(), sc, *stmt).ok && !old(self).in_method()
                && old(self).next_reg() + stmt_regs(*stmt, vmax) < 4294967295
                && old(self).blocks().len() + 4 * stmt_size(*stmt) + 1 < 4294967294 ==> res is Some,
        decreases *stmt, 1nat,
    {
        let ghost fns = old(self).functions();
        let ghost e0 = self.env;
        proof {
            lemma_cg_stmt_sticky(fns, sc, *stmt);
        }
        match stmt {
            ast::InnerStmt::Cond { cond, true_branch, false_branch } => {
                proof {
                    assert(decreases_to!(*stmt => *true_branch));
                    if let Some(bl) = false_branch {
                        assert(decreases_to!(*stmt => bl));
                    }
                }
                let ghost ok = cg_stmt(fns, sc, *stmt).ok;
                match &cond.inner {
                    ast::InnerExpr::LitBool(true) => self.process_nested_block(true_branch, cur_label, Ghost(sc), Ghost(vmax)),
                    ast::InnerExpr::LitBool(false) => match false_branch {
                        Some(bl) => self.process_nested_block(bl, cur_label, Ghost(sc), Ghost(vmax)),
                        None => {
                            proof {
                                lemma_frames_kept_shape(e0, self.env, Label(UNREACHABLE_LABEL_NO));
                            }
                            Some(cur_label)
                        },
                    },
                    _ => match false_branch {
                        None => self.process_if_only(stmt, cur_label, Ghost(sc), Ghost(vmax)),
                        Some(_) => self.process_if_else(stmt, cur_label, Ghost(sc), Ghost(vmax)),
                    },
                }
            },
            _ => None,
        }
    }

    /// Compiles a conditional without a false branch and with a condition that is not a
    /// literal, starting in block `cur_label`, as `process_if` describes: where the condition
    /// fails, control goes to the block after the conditional.
    #[verifier::rlimit(100)]
    fn process_if_only(
        &mut self,
        stmt: &ast::InnerStmt,
        cur_label: Label,
        Ghost(sc): Ghost<CgScope>,
        Ghost(vmax): Ghost<nat>,
    ) -> (res: Option<Label>)
        requires
            old(self).wf(),
            old(self).valid_label(cur_label),
            stmt matches ast::InnerStmt::Cond { cond, false_branch, .. } && false_branch is None && !(cond.inner is LitBool),
            sc.ok ==> old(self).env.vars_typed(cur_label, sc.vars)
                && old(self).env.frame_locals(cur_label).dom().subset_of(sc.declared),
            sc.ok ==> sc.vars.dom().finite() && sc.vars.dom().len() + stmt_size(*stmt) <= vmax,
        ensures
            res is Some ==> final(self).open_regs() == old(self).open_regs(),
            old(self).open_regs().subset_of(final(self).open_regs()),
            defs_grow(old(self).blocks(), final(self).blocks()),
            defs_since(old(self).blocks(), final(self).blocks(), old(self).next_reg()),
            strings_extend(old(self).strings(), final(self).strings()),
            final(self).wf(),
            keeps_old(old(self).blocks(), final(self).blocks()),
            res matches Some(l) ==> final(self).valid_or_unreachable(l),
            res matches Some(l) ==> l.0 == UNREACHABLE_LABEL_NO || l == cur_label || old(self).blocks().len() <= l.0,
            final(self).contexts() == old(self).contexts(),
            old(self).next_reg() <= final(self).next_reg(),
            cg_stmt(old(self).functions(), sc, *stmt).ok ==> old(self).next_reg() <= final(self).next_reg()
                <= old(self).next_reg() + stmt_regs(*stmt, vmax)
                && final(self).blocks().len() <= old(self).blocks().len() + 4 * stmt_size(*stmt)
                && old(self).env.shape_grows(final(self).env, Label(UNREACHABLE_LABEL_NO))
                && (res matches Some(l) ==> (l.0 != UNREACHABLE_LABEL_NO ==> final(self).env.vars_typed(l, cg_stmt(old(self).functions(), sc, *stmt).vars)
                    && final(self).env.frame_locals(l).dom().subset_of(cg_stmt(old(self).functions(), sc, *stmt).declared))),
            cg_stmt(old(self).functions(), sc, *stmt).ok && !old(self).in_method()
                && old(self).next_reg() + stmt_regs(*stmt, vmax) < 4294967295
                && old(self).blocks().len() + 4 * stmt_size(*stmt) + 1 < 4294967294 ==> res is Some,
        decreases *stmt, 0nat,
    {
        let ghost fns = old(self).functions();
        let ghost e0 = self.env;
        proof {
            lemma_cg_stmt_sticky(fns, sc, *stmt);
            lemma_frames_kept_shape(e0, e0, Label(UNREACHABLE_LABEL_NO));
        }
        match stmt {
            ast::InnerStmt::Cond { cond, true_branch, false_branch: None } => {
                proof {
                    assert(decreases_to!(*stmt => *true_branch));
                }
                let ghost ok = cg_stmt(fns, sc, *stmt).ok;
                let ghost inner = if ok { inner_scope(sc) } else { cg_unknown() };
                proof {
                    if ok {
                        lemma_cg_stmts_same_vars(fns, inner_scope(sc), true_branch.stmts@);
                    }
                }
                let expr = &cond.inner;
                let ghost ea = self.env;
                let r1 = self.new_block_after(cur_label);
                proof {
                    lemma_frames_kept_shape(ea, self.env, Label(UNREACHABLE_LABEL_NO));
                    lemma_shape_trans(e0, ea, self.env, Label(UNREACHABLE_LABEL_NO), Label(UNREACHABLE_LABEL_NO));
                }
                let true_label = match r1 {
                    Some(l) => l,
                    None => return None,
                };
                let ghost eb = self.env;
                let r2 = self.new_block_after(cur_label);
                proof {
                    lemma_frames_kept_shape(eb, self.env, Label(UNREACHABLE_LABEL_NO));
                    lemma_shape_trans(e0, eb, self.env, Label(UNREACHABLE_LABEL_NO), Label(UNREACHABLE_LABEL_NO));
                }
                let cont_label = match r2 {
                    Some(l) => l,
                    None => return None,
                };
                let ghost e2 = self.env;
                let ghost b2 = self.blocks();
                proof {
                    assert(e2.frame_locals(true_label) == eb.frame_locals(true_label));
                    if sc.ok {
                        lemma_frames_kept_vars_typed(e0, e2, cur_label, sc.vars);
                        lemma_empty_child_vars_typed(e2, true_label, cur_label, sc.vars);
                    }
                }
                let c = self.process_expression_cond(expr, cur_label, true_label, cont_label, Ghost(sc.vars));
                proof {
                    lemma_frames_kept_shape(e2, self.env, Label(UNREACHABLE_LABEL_NO));
                    lemma_shape_trans(e0, e2, self.env, Label(UNREACHABLE_LABEL_NO), Label(UNREACHABLE_LABEL_NO));
                }
                if !c {
                    return None;
                }
                let ghost e3 = self.env;
                let ghost b3 = self.blocks();
                let ghost p = b3[cont_label.0 as int].predecessors@[0];
                proof {
                    assert(e3.frame_locals(true_label) == e2.frame_locals(true_label));
                    assert(e3.frame_locals(cont_label) == e2.frame_locals(cont_label));
                    if sc.ok {
                        lemma_frames_kept_vars_typed(e2, e3, true_label, sc.vars);
                        lemma_frames_kept_vars_typed(e2, e3, cur_label, sc.vars);
                    }
                    if ok {
                        assert(b3[cont_label.0 as int].predecessors@.len() == 1);
                        assert(e3.sees_same(p, cur_label));
                        assert(pred_ok(b3, cont_label.0 as int, p));
                    }
                }
                let rt = self.process_block(true_branch, true_label, false, Ghost(inner), Ghost(vmax));
                proof {
                    if ok {
                        lemma_shape_trans(e0, e3, self.env, Label(UNREACHABLE_LABEL_NO), Label(UNREACHABLE_LABEL_NO));
                        lemma_shape_vars_typed(e3, self.env, Label(UNREACHABLE_LABEL_NO), cur_label, sc.vars);
                        assert(e3.vars_typed(p, sc.vars));
                        lemma_shape_vars_typed(e3, self.env, Label(UNREACHABLE_LABEL_NO), p, sc.vars);
                        assert(e3.valid_frame(cont_label));
                        assert(self.env.frame_locals(cont_label).dom() == e3.frame_locals(cont_label).dom());
                    }
                }
                let end_true_label = match rt {
                    Some(l) => l,
                    None => return None,
                };
                let ghost e4 = self.env;
                if end_true_label.0 != UNREACHABLE_LABEL_NO {
                    self.add_branch1_op(end_true_label, cont_label);
                    let ghost e5 = self.env;
                    proof {
                        if ok {
                            assert(self.blocks()[cont_label.0 as int].predecessors@ =~= seq![p, end_true_label]);
                        }
                    }
                    let c2 = self.calculate_phi_set_for_if(cur_label, cont_label, Ghost(sc.vars));
                    proof {
                        if ok {
                            lemma_shape_trans(e0, e5, self.env, Label(UNREACHABLE_LABEL_NO), Label(UNREACHABLE_LABEL_NO));
                        }
                    }
                    if !c2 {
                        return None;
                    }
                } else {
                    proof {
                        lemma_frames_kept_shape(e4, self.env, Label(UNREACHABLE_LABEL_NO));
                    }
                }
                proof {
                    if ok {
                        lemma_shape_trans(e0, e4, self.env, Label(UNREACHABLE_LABEL_NO), Label(UNREACHABLE_LABEL_NO));
                        lemma_shape_vars_typed(e4, self.env, Label(UNREACHABLE_LABEL_NO), cur_label, sc.vars);
                        assert(e4.valid_frame(cont_label));
                        assert(self.env.frame_locals(cont_label).dom() == e4.frame_locals(cont_label).dom());
                        assert(self.env.frame_parent(cont_label) == e4.frame_parent(cont_label));
                        lemma_empty_child_vars_typed(self.env, cont_label, cur_label, sc.vars);
                    }
                }
                Some(cont_label)
            },
            _ => None,
        }
    }

    /// Compiles a conditional with both branches and a condition that is not a literal,
    /// starting in block `cur_label`, as `process_if` describes.
    #[verifier::rlimit(100)]
    fn process_if_else(
        &mut self,
        stmt: &ast::InnerStmt,
        cur_label: Label,
        Ghost(sc): Ghost<CgScope>,
        Ghost(vmax): Ghost<nat>,
    ) -> (res: Option<Label>)
        requires
            old(self).wf(),
            old(self).valid_label(cur_label),
            stmt matches ast::InnerStmt::Cond { cond, false_branch, .. } && false_branch is Some && !(cond.inner is LitBool),
            sc.ok ==> old(self).env.vars_typed(cur_label, sc.vars)
                && old(self).env.frame_locals(cur_label).dom().subset_of(sc.declared),
            sc.ok ==> sc.vars.dom().finite() && sc.vars.dom().len() + stmt_size(*stmt) <= vmax,
        ensures
            res is Some ==> final(self).open_regs() == old(self).open_regs(),
            old(self).open_regs().subset_of(final(self).open_regs()),
            defs_grow(old(self).blocks(), final(self).blocks()),
            defs_since(old(self).blocks(), final(self).blocks(), old(self).next_reg()),
            strings_extend(old(self).strings(), final(self).strings()),
            final(self).wf(),
            keeps_old(old(self).blocks(), final(self).blocks()),
            res matches Some(l) ==> final(self).valid_or_unreachable(l),
            res matches Some(l) ==> l.0 == UNREACHABLE_LABEL_NO || l == cur_label || old(self).blocks().len() <= l.0,
            final(self).contexts() == old(self).contexts(),
            old(self).next_reg() <= final(self).next_reg(),
            cg_stmt(old(self).functions(), sc, *stmt).ok ==> old(self).next_reg() <= final(self).next_reg()
                <= old(self).next_reg() + stmt_regs(*stmt, vmax)
                && final(self).blocks().len() <= old(self).blocks().len() + 4 * stmt_size(*stmt)
                && old(self).env.shape_grows(final(self).env, Label(UNREACHABLE_LABEL_NO))
                && (res matches Some(l) ==> (l.0 != UNREACHABLE_LABEL_NO ==> final(self).env.vars_typed(l, cg_stmt(old(self).functions(), sc, *stmt).vars)
                    && final(self).env.frame_locals(l).dom().subset_of(cg_stmt(old(self).functions(), sc, *stmt).declared))),
            cg_stmt(old(self).functions(), sc, *stmt).ok && !old(self).in_method()
                && old(self).next_reg() + stmt_regs(*stmt, vmax) < 4294967295
                && old(self).blocks().len() + 4 * stmt_size(*stmt) + 1 < 4294967294 ==> res is Some,
        decreases *stmt, 0nat,
    {
        let ghost fns = old(self).functions();
        let ghost e0 = self.env;
        proof {
            lemma_cg_stmt_sticky(fns, sc, *stmt);
            lemma_frames_kept_shape(e0, e0, Label(UNREACHABLE_LABEL_NO));
        }
        match stmt {
            ast::InnerStmt::Cond { cond, true_branch, false_branch: Some(bl) } => {
                proof {
                    assert(decreases_to!(*stmt => *true_branch));
                    assert(decreases_to!(*stmt => *bl));
                }
                let ghost ok = cg_stmt(fns, sc, *stmt).ok;
                let ghost inner = if ok { inner_scope(sc) } else { cg_unknown() };
                proof {
                    if ok {
                        lemma_cg_stmts_same_vars(fns, inner_scope(sc), true_branch.stmts@);
                        lemma_cg_stmts_same_vars(fns, inner_scope(sc), bl.stmts@);
                    }
                }
                let expr = &cond.inner;
                let ghost ea = self.env;
                let r1 = self.new_block_after(cur_label);
                proof {
                    lemma_frames_kept_shape(ea, self.env, Label(UNREACHABLE_LABEL_NO));
                    lemma_shape_trans(e0, ea, self.env, Label(UNREACHABLE_LABEL_NO), Label(UNREACHABLE_LABEL_NO));
                }
                let true_label = match r1 {
                    Some(l) => l,
                    None => return None,
                };
                let ghost eb = self.env;
                let r2 = self.new_block_after(cur_label);
                proof {
                    lemma_frames_kept_shape(eb, self.env, Label(UNREACHABLE_LABEL_NO));
                    lemma_shape_trans(e0, eb, self.env, Label(UNREACHABLE_LABEL_NO), Label(UNREACHABLE_LABEL_NO));
                }
                let false_label = match r2 {
                    Some(l) => l,
                    None => return None,
                };
                let ghost e2 = self.env;
                proof {
                    assert(e2.frame_locals(true_label) == eb.frame_locals(true_label));
                    if sc.ok {
                        lemma_frames_kept_vars_typed(e0, e2, cur_label, sc.vars);
                        lemma_empty_child_vars_typed(e2, true_label, cur_label, sc.vars);
                        lemma_empty_child_vars_typed(e2, false_label, cur_label, sc.vars);
                    }
                }
                let c = self.process_expression_cond(expr, cur_label, true_label, false_label, Ghost(sc.vars));
                proof {
                    lemma_frames_kept_shape(e2, self.env, Label(UNREACHABLE_LABEL_NO));
                    lemma_shape_trans(e0, e2, self.env, Label(UNREACHABLE_LABEL_NO), Label(UNREACHABLE_LABEL_NO));
                }
                if !c {
                    return None;
                }
                let ghost e3 = self.env;
                proof {
                    assert(e3.frame_locals(true_label) == e2.frame_locals(true_label));
                    assert(e3.frame_locals(false_label) == e2.frame_locals(false_label));
                    if sc.ok {
                        lemma_frames_kept_vars_typed(e2, e3, true_label, sc.vars);
                        lemma_frames_kept_vars_typed(e2, e3, false_label, sc.vars);
                        lemma_frames_kept_vars_typed(e2, e3, cur_label, sc.vars);
                    }
                }
                let rt = self.process_block(true_branch, true_label, false, Ghost(inner), Ghost(vmax));
                proof {
                    if ok {
                        lemma_shape_trans(e0, e3, self.env, Label(UNREACHABLE_LABEL_NO), Label(UNREACHABLE_LABEL_NO));
                        lemma_shape_vars_typed(e3, self.env, Label(UNREACHABLE_LABEL_NO), false_label, sc.vars);
                        lemma_shape_vars_typed(e3, self.env, Label(UNREACHABLE_LABEL_NO), cur_label, sc.vars);
                        assert(self.env.frame_locals(false_label).dom() == e3.frame_locals(false_label).dom());
                    }
                }
                let end_true_label = match rt {
                    Some(l) => l,
                    None => return None,
                };
                let ghost e4 = self.env;
                let rf = self.process_block(bl, false_label, false, Ghost(inner), Ghost(vmax));
                proof {
                    if ok {
                        lemma_shape_trans(e0, e4, self.env, Label(UNREACHABLE_LABEL_NO), Label(UNREACHABLE_LABEL_NO));
                        lemma_shape_vars_typed(e4, self.env, Label(UNREACHABLE_LABEL_NO), cur_label, sc.vars);
                        if end_true_label.0 != UNREACHABLE_LABEL_NO {
                            lemma_shape_vars_typed(e4, self.env, Label(UNREACHABLE_LABEL_NO), end_true_label, sc.vars);
                        }
                    }
                }
                let end_false_label = match rf {
                    Some(l) => l,
                    None => return None,
                };
                let ghost e5 = self.env;
                let true_ends = end_true_label.0 == UNREACHABLE_LABEL_NO;
                let false_ends = end_false_label.0 == UNREACHABLE_LABEL_NO;
                if true_ends && false_ends {
                    return Some(Label(UNREACHABLE_LABEL_NO));
                }
                let r3 = self.new_block_after(cur_label);
                proof {
                    lemma_frames_kept_shape(e5, self.env, Label(UNREACHABLE_LABEL_NO));
                    if ok {
                        lemma_shape_trans(e0, e5, self.env, Label(UNREACHABLE_LABEL_NO), Label(UNREACHABLE_LABEL_NO));
                    }
                }
                let cont_label = match r3 {
                    Some(l) => l,
                    None => return None,
                };
                let ghost e6 = self.env;
                proof {
                    if ok {
                        lemma_frames_kept_vars_typed(e5, e6, cur_label, sc.vars);
                        if !true_ends {
                            lemma_frames_kept_vars_typed(e5, e6, end_true_label, sc.vars);
                        }
                        if !false_ends {
                            lemma_frames_kept_vars_typed(e5, e6, end_false_label, sc.vars);
                        }
                    }
                }
                if true_ends {
                    self.add_branch1_op(end_false_label, cont_label);
                    proof {
                        lemma_frames_kept_shape(e6, self.env, Label(UNREACHABLE_LABEL_NO));
                    }
                } else if false_ends {
                    self.add_branch1_op(end_true_label, cont_label);
                    proof {
                        lemma_frames_kept_shape(e6, self.env, Label(UNREACHABLE_LABEL_NO));
                    }
                } else {
                    self.add_branch1_op(end_false_label, cont_label);
                    self.add_branch1_op(end_true_label, cont_label);
                    let ghost e7 = self.env;
                    proof {
                        assert(self.blocks()[cont_label.0 as int].predecessors@ =~= seq![end_false_label, end_true_label]);
                    }
                    let c2 = self.calculate_phi_set_for_if(cur_label, cont_label, Ghost(sc.vars));
                    proof {
                        if ok {
                            lemma_shape_trans(e0, e7, self.env, Label(UNREACHABLE_LABEL_NO), Label(UNREACHABLE_LABEL_NO));
                        }
                    }
                    if !c2 {
                        return None;
                    }
                }
                proof {
                    if ok {
                        lemma_shape_trans(e0, e6, self.env, Label(UNREACHABLE_LABEL_NO), Label(UNREACHABLE_LABEL_NO));
                        lemma_shape_vars_typed(e6, self.env, Label(UNREACHABLE_LABEL_NO), cur_label, sc.vars);
                        assert(self.env.frame_locals(cont_label).dom() == e6.frame_locals(cont_label).dom());
                        lemma_empty_child_vars_typed(self.env, cont_label, cur_label, sc.vars);
                    }
                }
                Some(cont_label)
            },
            _ => None,
        }
    }

    /// Compiles a loop starting in block `cur_label`. Each variable seen from `cur_label` gets
    /// a phi function in the block that tests the condition (the body's first block where the
    /// condition is `true`), taking the value on entry and the value at the end of the body.
    /// Gives the block after the loop, or the unreachable label where the condition is `true`.
    /// Fails where the condition or the body holds a construct that is not generated, or the
    /// registers or labels run out.
    #[verifier::rlimit(80)]
    fn process_while(
        &mut self,
        stmt: &ast::InnerStmt,
        cur_label: Label,
        Ghost(sc): Ghost<CgScope>,
        Ghost(vmax): Ghost<nat>,
    ) -> (res: Option<Label>)
        requires
            old(self).wf(),
            old(self).valid_label(cur_label),
            stmt is While,
            sc.ok ==> old(self).env.vars_typed(cur_label, sc.vars)
                && old(self).env.frame_locals(cur_label).dom().subset_of(sc.declared),
            sc.ok ==> sc.vars.dom().finite() && sc.vars.dom().len() + stmt_size(*stmt) <= vmax,
        ensures
            res is Some ==> final(self).open_regs() == old(self).open_regs(),
            old(self).open_regs().subset_of(final(self).open_regs()),
            defs_grow(old(self).blocks(), final(self).blocks()),
            defs_since(old(self).blocks(), final(self).blocks(), old(self).next_reg()),
            strings_extend(old(self).strings(), final(self).strings()),
            final(self).wf(),
            keeps_old(old(self).blocks(), final(self).blocks()),
            res matches Some(l) ==> final(self).valid_or_unreachable(l),
            res matches Some(l) ==> l.0 == UNREACHABLE_LABEL_NO || l == cur_label || old(self).blocks().len() <= l.0,
            final(self).contexts() == old(self).contexts(),
            old(self).next_reg() <= final(self).next_reg(),
            cg_stmt(old(self).functions(), sc, *stmt).ok ==> old(self).next_reg() <= final(self).next_reg()
                <= old(self).next_reg() + stmt_regs(*stmt, vmax)
                && final(self).blocks().len() <= old(self).blocks().len() + 4 * stmt_size(*stmt)
                && old(self).env.shape_grows(final(self).env, Label(UNREACHABLE_LABEL_NO))
                && (res matches Some(l) ==> (l.0 != UNREACHABLE_LABEL_NO ==> final(self).env.vars_typed(l, cg_stmt(old(self).functions(), sc, *stmt).vars)
                    && final(self).env.frame_locals(l).dom().subset_of(cg_stmt(old(self).functions(), sc, *stmt).declared))),
            cg_stmt(old(self).functions(), sc, *stmt).ok && !old(self).in_method()
                && old(self).next_reg() + stmt_regs(*stmt, vmax) < 4294967295
                && old(self).blocks().len() + 4 * stmt_size(*stmt) + 1 < 4294967294 ==> res is Some,
        decreases *stmt, 0nat,
    {
        let ghost fns = old(self).functions();
        let ghost e0 = self.env;
        proof {
            lemma_cg_stmt_sticky(fns, sc, *stmt);
        }
        match stmt {
            ast::InnerStmt::While(cond, body) => {
                proof {
                    assert(decreases_to!(*stmt => *body));
                }
                let ghost inner = CgScope { vars: sc.vars, declared: Set::empty(), ok: sc.ok };
                let ghost ok = cg_stmt(fns, sc, *stmt).ok;
                match &cond.inner {
                    ast::InnerExpr::LitBool(false) => {
                        proof {
                            lemma_frames_kept_shape(e0, self.env, Label(UNREACHABLE_LABEL_NO));
                        }
                        Some(cur_label)
                    },
                    ast::InnerExpr::LitBool(true) => {
                        let body_label = match self.new_block_after(cur_label) {
                            Some(l) => l,
                            None => return None,
                        };
                        let ghost e1 = self.env;
                        let prepared = self.prepare_env_and_stub_phi_set_for_loop_cond(cur_label, body_label, Ghost(sc.vars));
                        let ghost e2 = self.env;
                        proof {
                            lemma_frames_kept_shape(e0, e1, Label(UNREACHABLE_LABEL_NO));
                            lemma_shape_trans(e0, e1, e2, Label(UNREACHABLE_LABEL_NO), Label(UNREACHABLE_LABEL_NO));
                            if sc.ok {
                                lemma_frames_kept_vars_typed(e0, e1, cur_label, sc.vars);
                                lemma_empty_child_vars_typed(e1, body_label, cur_label, sc.vars);
                                lemma_shape_vars_typed(e1, e2, Label(UNREACHABLE_LABEL_NO), body_label, sc.vars);
                                assert(e2.frame_locals(body_label).dom() == e1.frame_locals(body_label).dom());
                            }
                        }
                        let stub_info = match prepared {
                            Some(s) => s,
                            None => return None,
                        };
                        self.add_branch1_op(cur_label, body_label);
                        let ghost e3 = self.env;
                        let end_body_label = match self.process_block(body, body_label, false, Ghost(inner), Ghost(vmax)) {
                            Some(l) => l,
                            None => {
                                proof {
                                    if ok {
                                        lemma_shape_trans(e0, e3, self.env, Label(UNREACHABLE_LABEL_NO), body_label);
                                    }
                                }
                                return None;
                            },
                        };
                        proof {
                            if ok {
                                lemma_shape_trans(e0, e3, self.env, Label(UNREACHABLE_LABEL_NO), body_label);
                                lemma_cg_stmts_vcount(fns, inner, body.stmts@);
                            }
                        }
                        if end_body_label.0 != UNREACHABLE_LABEL_NO {
                            self.add_branch1_op(end_body_label, body_label);
                        }
                        let ghost stub_g = stub_info@;
                        if !self.finalize_phi_set_for_loop_cond(cur_label, body_label, stub_info) {
                            return None;
                        }
                        proof {
                            assert forall|r: RegNum| #[trigger] self.open_regs@.contains(r)
                                implies old(self).open_regs@.contains(r) || defines(self.blocks@, r) by {
                                if !old(self).open_regs@.contains(r) {
                                    let k = choose|k: int| 0 <= k < stub_g.len() && stub_reg(stub_g, k) == r;
                                    assert(defines(self.blocks@, stub_reg(stub_g, k)));
                                }
                            }
                            lemma_settled_shrink(self.env, self.blocks@, self.open_regs@, old(self).open_regs@);
                        }
                        self.open_regs = Ghost(old(self).open_regs@);
                        Some(Label(UNREACHABLE_LABEL_NO))
                    },
                    expr => {
                        let cond_label = match self.new_block_after(cur_label) {
                            Some(l) => l,
                            None => return None,
                        };
                        let ghost e1 = self.env;
                        proof {
                            if sc.ok {
                                lemma_frames_kept_vars_typed(e0, e1, cur_label, sc.vars);
                            }
                        }
                        let prepared = self.prepare_env_and_stub_phi_set_for_loop_cond(cur_label, cond_label, Ghost(sc.vars));
                        let ghost e2 = self.env;
                        proof {
                            lemma_frames_kept_shape(e0, e1, Label(UNREACHABLE_LABEL_NO));
                            lemma_shape_trans(e0, e1, e2, Label(UNREACHABLE_LABEL_NO), Label(UNREACHABLE_LABEL_NO));
                        }
                        let stub_info = match prepared {
                            Some(s) => s,
                            None => return None,
                        };
                        let body_label = match self.new_block_after(cond_label) {
                            Some(l) => l,
                            None => return None,
                        };
                        let cont_label = match self.new_block_after(cond_label) {
                            Some(l) => l,
                            None => return None,
                        };
                        self.add_branch1_op(cur_label, cond_label);
                        let ghost e3 = self.env;
                        proof {
                            lemma_frames_kept_shape(e2, e3, Label(UNREACHABLE_LABEL_NO));
                            lemma_shape_trans(e0, e2, e3, Label(UNREACHABLE_LABEL_NO), Label(UNREACHABLE_LABEL_NO));
                            if sc.ok {
                                lemma_frames_kept_vars_typed(e0, e1, cur_label, sc.vars);
                                lemma_empty_child_vars_typed(e1, cond_label, cur_label, sc.vars);
                                lemma_shape_vars_typed(e1, e2, Label(UNREACHABLE_LABEL_NO), cond_label, sc.vars);
                                lemma_frames_kept_vars_typed(e2, e3, cond_label, sc.vars);
                            }
                        }
                        if !self.process_expression_cond(expr, cond_label, body_label, cont_label, Ghost(sc.vars)) {
                            return None;
                        }
                        let ghost e4 = self.env;
                        proof {
                            lemma_frames_kept_shape(e3, e4, Label(UNREACHABLE_LABEL_NO));
                            lemma_shape_trans(e0, e3, e4, Label(UNREACHABLE_LABEL_NO), Label(UNREACHABLE_LABEL_NO));
                            if sc.ok {
                                lemma_frames_kept_vars_typed(e3, e4, cond_label, sc.vars);
                                lemma_empty_child_vars_typed(e4, body_label, cond_label, sc.vars);
                                lemma_empty_child_vars_typed(e4, cont_label, cond_label, sc.vars);
                            }
                        }
                        let end_body_label = match self.process_block(body, body_label, false, Ghost(inner), Ghost(vmax)) {
                            Some(l) => l,
                            None => {
                                proof {
                                    if ok {
                                        lemma_shape_trans(e0, e4, self.env, Label(UNREACHABLE_LABEL_NO), body_label);
                                    }
                                }
                                return None;
                            },
                        };
                        let ghost e5 = self.env;
                        proof {
                            if ok {
                                lemma_shape_trans(e0, e4, e5, Label(UNREACHABLE_LABEL_NO), body_label);
                                lemma_cg_stmts_vcount(fns, inner, body.stmts@);
                                lemma_shape_vars_typed_below(e4, e5, body_label, cond_label, sc.vars);
                                assert(e5.frame_locals(cont_label).dom() == e4.frame_locals(cont_label).dom());
                                lemma_empty_child_vars_typed(e5, cont_label, cond_label, sc.vars);
                            }
                        }
                        if end_body_label.0 != UNREACHABLE_LABEL_NO {
                            self.add_branch1_op(end_body_label, cond_label);
                        }
                        let ghost stub_g = stub_info@;
                        if !self.finalize_phi_set_for_loop_cond(cur_label, cond_label, stub_info) {
                            return None;
                        }
                        proof {
                            assert forall|r: RegNum| #[trigger] self.open_regs@.contains(r)
                                implies old(self).open_regs@.contains(r) || defines(self.blocks@, r) by {
                                if !old(self).open_regs@.contains(r) {
                                    let k = choose|k: int| 0 <= k < stub_g.len() && stub_reg(stub_g, k) == r;
                                    assert(defines(self.blocks@, stub_reg(stub_g, k)));
                                }
                            }
                            lemma_settled_shrink(self.env, self.blocks@, self.open_regs@, old(self).open_regs@);
                        }
                        self.open_regs = Ghost(old(self).open_regs@);
                        Some(cont_label)
                    },
                }
            },
            _ => None,
        }
    }

    /// Compiles a statement that holds no other statement, starting in block `cur_label`: gives
    /// the block where control is after it, or the unreachable label after a return. Fails
    /// where the statement holds a construct that is not generated, a name that no frame
    /// declares, or a name declared twice in one frame.
    fn process_simple_stmt(&mut self, stmt: &ast::InnerStmt, cur_label: Label, Ghost(sc): Ghost<CgScope>) -> (res: Option<Label>)
        requires
            old(self).wf(),
            old(self).valid_label(cur_label),
            sc.ok ==> old(self).env.vars_typed(cur_label, sc.vars)
                && old(self).env.frame_locals(cur_label).dom().subset_of(sc.declared),
            !(stmt is Block),
            !(stmt is While),
            !(stmt is Cond),
        ensures
            stmt_effect(env_vals(old(self).env, cur_label), old(self).next_reg(), cur_label, *stmt, res, final(self).blocks(), final(self).env),
            res is Some ==> final(self).open_regs() == old(self).open_regs(),
            old(self).open_regs().subset_of(final(self).open_regs()),
            defs_grow(old(self).blocks(), final(self).blocks()),
            defs_since(old(self).blocks(), final(self).blocks(), old(self).next_reg()),
            strings_extend(old(self).strings(), final(self).strings()),
            final(self).wf(),
            keeps_old(old(self).blocks(), final(self).blocks()),
            res matches Some(l) ==> final(self).valid_or_unreachable(l),
            res matches Some(l) ==> l.0 == UNREACHABLE_LABEL_NO || l == cur_label || old(self).blocks().len() <= l.0,
            final(self).contexts() == old(self).contexts(),
            old(self).next_reg() <= final(self).next_reg(),
            cg_stmt(old(self).functions(), sc, *stmt).ok ==> old(self).next_reg() <= final(self).next_reg()
                <= old(self).next_reg() + stmt_size(*stmt)
                && final(self).blocks().len() <= old(self).blocks().len() + 4 * stmt_size(*stmt)
                && old(self).env.shape_grows(final(self).env, cur_label)
                && final(self).env.frame_locals(cur_label).dom().subset_of(
                    old(self).env.frame_locals(cur_label).dom().union(cg_stmt(old(self).functions(), sc, *stmt).declared))
                && (res matches Some(l) ==> (l.0 != UNREACHABLE_LABEL_NO ==> final(self).env.vars_typed(l, cg_stmt(old(self).functions(), sc, *stmt).vars)
                    && final(self).env.frame_locals(l).dom().subset_of(cg_stmt(old(self).functions(), sc, *stmt).declared))),
            cg_stmt(old(self).functions(), sc, *stmt).ok && !old(self).in_method()
                && old(self).next_reg() + stmt_size(*stmt) < 4294967295
                && old(self).blocks().len() + 4 * stmt_size(*stmt) + 1 < 4294967294 ==> res is Some,
    {
        let ghost fns = old(self).functions();
        let ghost e0 = self.env;
        proof {
            lemma_cg_stmt_sticky(fns, sc, *stmt);
        }
        match stmt {
            ast::InnerStmt::Empty => {
                proof {
                    lemma_frames_kept_shape(e0, self.env, cur_label);
                }
                Some(cur_label)
            },
            ast::InnerStmt::Decl { var_type, var_items } => self.process_decl(var_type, var_items, cur_label, Ghost(sc)),
            ast::InnerStmt::Assign(lhs, rhs) => {
                let (at, value) = match self.process_expression(&rhs.inner, cur_label, Ghost(sc.vars)) {
                    Some(r) => r,
                    None => return None,
                };
                let ghost e1 = self.env;
                proof {
                    lemma_frames_kept_shape(e0, e1, cur_label);
                    if sc.ok {
                        lemma_expr_step(e0, e1, cur_label, at, sc.vars);
                    }
                }
                match &lhs.inner {
                    ast::InnerExpr::LitVar(var_name) => {
                        let ghost gv = value;
                        let updated = self.env.update_existing_local_variable(at, var_name.as_str(), value);
                        proof {
                            lemma_env_below_set(e1, self.env, e1.defining_frame(at, var_name@)->0, var_name@, gv,
                                self.next_reg_num.0, self.next_reg_num.0);
                            lemma_env_settled_set(e1, self.env, e1.defining_frame(at, var_name@)->0, var_name@, gv, self.blocks@, self.blocks@, self.open_regs@, self.open_regs@);
                        }
                        if !updated {
                            return None;
                        }
                        proof {
                            if cg_stmt(fns, sc, *stmt).ok {
                                lemma_update_var(e1, self.env, at, var_name@, value, sc.vars);
                                lemma_shape_trans(e0, e1, self.env, cur_label, Label(UNREACHABLE_LABEL_NO));
                            }
                        }
                        Some(at)
                    },
                    _ => None,
                }
            },
            ast::InnerStmt::Incr(lhs) | ast::InnerStmt::Decr(lhs) => {
                let op = match stmt {
                    ast::InnerStmt::Incr(_) => ir::ArithOp::Add,
                    _ => ir::ArithOp::Sub,
                };
                match &lhs.inner {
                    ast::InnerExpr::LitVar(var_name) => {
                        let new_reg = match self.get_new_reg_num() {
                            Some(r) => r,
                            None => return None,
                        };
                        let val_l = match self.env.get_variable(cur_label, var_name.as_str()) {
                            Some(v) => v.clone(),
                            None => return None,
                        };
                        proof {
                            self.lemma_env_var_below(cur_label, var_name@, val_l);
                        }
                        let val_r = Value::LitInt(1);
                        self.push_op(cur_label, ir::Operation::Arithmetic(new_reg, op, val_l, val_r));
                        let val_res = Value::Register(new_reg, Type::Int);
                        let ghost e1 = self.env;
                        let updated = self.env.update_existing_local_variable(cur_label, var_name.as_str(), val_res);
                        proof {
                            lemma_env_below_set(e1, self.env, e1.defining_frame(cur_label, var_name@)->0, var_name@, val_res,
                                self.next_reg_num.0, self.next_reg_num.0);
                            lemma_env_settled_set(e1, self.env, e1.defining_frame(cur_label, var_name@)->0, var_name@, val_res, self.blocks@, self.blocks@, self.open_regs@, self.open_regs@);
                        }
                        if !updated {
                            return None;
                        }
                        proof {
                            if cg_stmt(fns, sc, *stmt).ok {
                                assert(spec_value_type(val_res@) == TypeModel::Int);
                                lemma_update_var(e1, self.env, cur_label, var_name@, val_res, sc.vars);
                                lemma_shape_retarget(e0, self.env, Label(UNREACHABLE_LABEL_NO), cur_label);
                            }
                        }
                        Some(cur_label)
                    },
                    _ => None,
                }
            },
            ast::InnerStmt::Ret(opt_expr) => {
                let mut at = cur_label;
                let ghost mut gv: Value = Value::LitNullPtr;
                let opt_value = match opt_expr {
                    Some(expr) => match self.process_expression(&expr.inner, cur_label, Ghost(sc.vars)) {
                        Some((new_label, value)) => {
                            proof {
                                gv = value;
                            }
                            at = new_label;
                            match value {
                                Value::Register(_, Type::Void) => None,
                                _ => Some(value),
                            }
                        },
                        None => return None,
                    },
                    None => None,
                };
                let ghost before_push = self.blocks();
                let ghost opt_g = opt_value;
                self.push_op(at, ir::Operation::Return(opt_value));
                proof {
                    let bl = self.blocks();
                    assert(bl[at.0 as int].body@.last() == ir::Operation::Return(opt_g));
                    if let Some(e) = opt_expr {
                        lemma_computes_kept(env_vals(old(self).env, cur_label), before_push, bl, e.inner, gv);
                        assert(computes(env_vals(old(self).env, cur_label), bl, e.inner, gv));
                    }
                    assert(returns_value(env_vals(old(self).env, cur_label), bl, *opt_expr, bl[at.0 as int].body@.last()));
                    lemma_frames_kept_shape(e0, self.env, cur_label);
                }
                Some(Label(UNREACHABLE_LABEL_NO))
            },
            ast::InnerStmt::Expr(expr) => match self.process_expression(&expr.inner, cur_label, Ghost(sc.vars)) {
                Some((new_label, _)) => {
                    proof {
                        lemma_frames_kept_shape(e0, self.env, cur_label);
                        if sc.ok {
                            lemma_expr_step(e0, self.env, cur_label, new_label, sc.vars);
                        }
                    }
                    Some(new_label)
                },
                None => None,
            },
            _ => None,
        }
    }

    /// Declares the variables of a declaration of type `var_type`, one by one, in the frame of
    /// the block where control is: each gets its initial value, computed before it is
    /// declared, or else the default of its type: `0`, `false`, the empty string, or null.
    /// Gives the block where control is after the initial values. Fails where a name is
    /// declared twice in that frame or an initial value cannot be generated.
    fn process_decl(
        &mut self,
        var_type: &ast::Type,
        var_items: &Vec<(ast::Ident, Option<Box<ast::Expr>>)>,
        cur_label: Label,
        Ghost(sc): Ghost<CgScope>,
    ) -> (res: Option<Label>)
        requires
            old(self).wf(),
            old(self).valid_label(cur_label),
            sc.ok ==> old(self).env.vars_typed(cur_label, sc.vars)
                && old(self).env.frame_locals(cur_label).dom().subset_of(sc.declared),
        ensures
            res is Some ==> final(self).open_regs() == old(self).open_regs(),
            old(self).open_regs().subset_of(final(self).open_regs()),
            defs_grow(old(self).blocks(), final(self).blocks()),
            defs_since(old(self).blocks(), final(self).blocks(), old(self).next_reg()),
            strings_extend(old(self).strings(), final(self).strings()),
            final(self).wf(),
            keeps_old(old(self).blocks(), final(self).blocks()),
            res matches Some(l) ==> final(self).valid_label(l),
            res matches Some(l) ==> l == cur_label || old(self).blocks().len() <= l.0,
            final(self).contexts() == old(self).contexts(),
            old(self).next_reg() <= final(self).next_reg(),
            cg_decl(old(self).functions(), sc, var_type.inner@, var_items@).ok ==> old(self).next_reg() <= final(self).next_reg()
                <= old(self).next_reg() + decl_size(var_items@)
                && final(self).blocks().len() <= old(self).blocks().len() + 4 * decl_size(var_items@)
                && old(self).env.shape_grows(final(self).env, cur_label)
                && final(self).env.frame_locals(cur_label).dom().subset_of(
                    old(self).env.frame_locals(cur_label).dom().union(cg_decl(old(self).functions(), sc, var_type.inner@, var_items@).declared))
                && (res matches Some(l) ==> final(self).env.vars_typed(l, cg_decl(old(self).functions(), sc, var_type.inner@, var_items@).vars)
                    && final(self).env.frame_locals(l).dom().subset_of(
                        cg_decl(old(self).functions(), sc, var_type.inner@, var_items@).declared)),
            cg_decl(old(self).functions(), sc, var_type.inner@, var_items@).ok && !old(self).in_method()
                && old(self).next_reg() + decl_size(var_items@) < 4294967295
                && old(self).blocks().len() + 4 * decl_size(var_items@) + 2 < 4294967294 ==> res is Some,
    {
        let ghost fns = old(self).functions();
        let ghost t = var_type.inner@;
        let ghost items = var_items@;
        let ghost okd = cg_decl(fns, sc, t, items).ok;
        let ghost env0 = self.env;
        let ghost start_reg = old(self).next_reg() as int;
        let ghost start_blocks = old(self).blocks().len() as int;
        proof {
            lemma_frames_kept_shape(env0, self.env, cur_label);
            lemma_decl_size_take(items, 0);
            assert(items.take(0) =~= Seq::<(ast::Ident, Option<Box<ast::Expr>>)>::empty());
            lemma_cg_decl_take(fns, sc, t, items, 0);
        }
        let mut at = cur_label;
        let mut k: usize = 0;
        while k < var_items.len()
            invariant
                self.wf(),
                self.valid_label(at),
                keeps_old(old(self).blocks(), self.blocks()),
                strings_extend(old(self).strings(), self.strings()),
                self.contexts() == old(self).contexts(),
                fns == old(self).functions(),
                items == var_items@,
                t == var_type.inner@,
                okd == cg_decl(fns, sc, t, items).ok,
                k <= var_items@.len(),
                env0 == old(self).env,
                env0.wf(),
                env0.frame_count() == start_blocks,
                env0.valid_frame(cur_label),
                start_reg == old(self).next_reg(),
                start_blocks == old(self).blocks().len(),
                okd ==> cg_decl(fns, sc, t, items.take(k as int)).ok,
                okd ==> start_reg <= self.next_reg() <= start_reg + decl_size(items.take(k as int))
                    && self.blocks().len() <= start_blocks + 4 * decl_size(items.take(k as int)),
                at == cur_label || start_blocks <= at.0,
                defs_since(old(self).blocks(), self.blocks(), old(self).next_reg()),
                defs_grow(old(self).blocks(), self.blocks()),
                self.open_regs() == old(self).open_regs(),
                old(self).next_reg() <= self.next_reg(),
                cg_decl(fns, sc, t, items.take(k as int)).ok ==> self.env.frame_locals(cur_label).dom().subset_of(
                    env0.frame_locals(cur_label).dom().union(cg_decl(fns, sc, t, items.take(k as int)).declared)),
                cg_decl(fns, sc, t, items.take(k as int)).ok ==> env0.shape_grows(self.env, cur_label)
                    && self.env.vars_typed(at, cg_decl(fns, sc, t, items.take(k as int)).vars)
                    && self.env.frame_locals(at).dom().subset_of(cg_decl(fns, sc, t, items.take(k as int)).declared),
            decreases var_items@.len() - k,
        {
            proof {
                lemma_cg_decl_take(fns, sc, t, items, k as int);
                lemma_cg_decl_take(fns, sc, t, items, k + 1);
                lemma_decl_size_take(items, k as int);
                lemma_decl_size_take(items, k + 1);
                lemma_decl_size_take(items, items.len() as int);
                assert(items.take(items.len() as int) =~= items);
            }
            let ghost sc_k = cg_decl(fns, sc, t, items.take(k as int));
            let ghost env_b = self.env;
            let ghost at_b = at;
            let item = &var_items[k];
            let value = match &item.1 {
                Some(expr) => match self.process_expression(&expr.inner, at, Ghost(sc_k.vars)) {
                    Some((new_label, value)) => {
                        proof {
                            if sc_k.ok {
                                lemma_expr_step(env_b, self.env, at_b, new_label, sc_k.vars);
                            }
                        }
                        at = new_label;
                        value
                    },
                    None => return None,
                },
                None => match &var_type.inner {
                    ast::InnerType::Int => Value::LitInt(0),
                    ast::InnerType::Bool => Value::LitBool(false),
                    ast::InnerType::String => self.get_global_string(""),
                    ast::InnerType::Array(_) | ast::InnerType::Class(_) => Value::LitNullPtr,
                    ast::InnerType::Null | ast::InnerType::Void => return None,
                },
            };
            let ghost env_m = self.env;
            proof {
                lemma_frames_kept_shape(env_b, env_m, cur_label);
                if sc_k.ok {
                    lemma_shape_trans(env0, env_b, env_m, cur_label, cur_label);
                    if at == at_b {
                        assert(env_m.frame_locals(at) == env_b.frame_locals(at));
                    }
                }
            }
            let added = self.env.add_new_local_variable(at, item.0.inner.as_str(), value);
            proof {
                lemma_env_below_set(env_m, self.env, at, item.0.inner@, value, self.next_reg_num.0, self.next_reg_num.0);
                lemma_env_settled_set(env_m, self.env, at, item.0.inner@, value, self.blocks@, self.blocks@, self.open_regs@, self.open_regs@);
            }
            if !added {
                return None;
            }
            proof {
                let sc_n = cg_decl(fns, sc, t, items.take(k + 1));
                if sc_n.ok {
                    assert(spec_value_type(value@) == spec_from_ast(t));
                    lemma_add_var(env_m, self.env, at, item.0.inner@, value, sc_k.vars);
                    lemma_shape_trans(env0, env_m, self.env, cur_label, at);
                    assert(self.env.frame_locals(at).dom() =~= env_m.frame_locals(at).dom().insert(item.0.inner@));
                    assert(env_m.frame_locals(cur_label) == env_b.frame_locals(cur_label));
                    if at != cur_label {
                        assert(env_m.valid_frame(cur_label));
                        assert(self.env.frame_locals(cur_label) == env_m.frame_locals(cur_label));
                    }
                    assert(self.env.frame_locals(cur_label).dom().subset_of(
                        env0.frame_locals(cur_label).dom().union(sc_n.declared)));
                }
            }
            k = k + 1;
        }
        proof {
            assert(items.take(items.len() as int) =~= items);
        }
        Some(at)
    }

}


/// No two parameters share a name.
pub open spec fn param_names_distinct(args: Seq<(ast::Type, ast::Ident)>) -> bool {
    forall|i: int, j: int| 0 <= i < args.len() && 0 <= j < args.len() && i != j
        ==> (#[trigger] args[i]).1.inner@ != (#[trigger] args[j]).1.inner@
}

/// The values of a function's parameters on entry: parameter `j` is register `j`, of the IR
/// type of its declared type.
pub open spec fn param_vals(args: Seq<(ast::Type, ast::Ident)>) -> spec_fn(Seq<char>) -> Option<ir::ValueModel> {
    |n: Seq<char>| if exists|j: int| 0 <= j < args.len() && #[trigger] args[j].1.inner@ == n {
        let j = choose|j: int| 0 <= j < args.len() && #[trigger] args[j].1.inner@ == n;
        Some(ir::ValueModel::Register(j as u32, spec_from_ast(args[j].0.inner@)))
    } else {
        None
    }
}

/// Where the body of `d`, whose parameters have distinct names, starts with a `return`, some
/// block of `f` ends with a `Return` of the value that the code computes for its expression
/// from the parameters.
pub open spec fn first_return_kept(f: ir::Function, d: ast::FunDef) -> bool {
    param_names_distinct(d.args@) && d.body.stmts@.len() > 0 && d.body.stmts@[0].inner is Ret
        ==> exists|at: int| 0 <= at < f.blocks@.len() && f.blocks@[at].body@.len() > 0
            && #[trigger] returns_value(param_vals(d.args@), f.blocks@, d.body.stmts@[0].inner->Ret_0, f.blocks@[at].body@.last())
}

/// The variables that a function's parameters declare, with the IR types of their types.
pub open spec fn params_vars(args: Seq<(ast::Type, ast::Ident)>) -> Map<Seq<char>, TypeModel>
    decreases args.len(),
{
    if args.len() == 0 {
        Map::empty()
    } else {
        params_vars(args.drop_last()).insert(args.last().1.inner@, spec_from_ast(args.last().0.inner@))
    }
}

/// A bound on the number of variables in scope anywhere in a function's body: each comes
/// from a parameter or from a node of a declaration.
pub open spec fn vars_bound(args: Seq<(ast::Type, ast::Ident)>, body: Seq<Box<ast::Stmt>>) -> nat {
    (args.len() + stmts_size(body)) as nat
}

/// A function has at most as many parameter variables as parameters.
proof fn lemma_params_vars_count(args: Seq<(ast::Type, ast::Ident)>)
    ensures
        params_vars(args).dom().finite(),
        params_vars(args).dom().len() <= args.len(),
    decreases args.len(),
{
    if args.len() > 0 {
        lemma_params_vars_count(args.drop_last());
        let m = params_vars(args.drop_last());
        assert(m.insert(args.last().1.inner@, spec_from_ast(args.last().0.inner@)).dom() =~= m.dom().insert(args.last().1.inner@));
        vstd::set::axiom_set_insert_len(m.dom(), args.last().1.inner@);
    }
}

/// What is known at the start of a function's body: its parameters are in scope.
pub open spec fn body_scope(args: Seq<(ast::Type, ast::Ident)>) -> CgScope {
    CgScope { vars: params_vars(args), declared: Set::empty(), ok: true }
}

/// Every register that a phi function or an operation reads, as a value of a type other
/// than `void`, is defined by some phi function or operation, or is numbered below `nargs`.
pub open spec fn reads_defined(blocks: Seq<ir::Block>, nargs: nat) -> bool {
    forall|i: int, phi: bool, k: int, j: int| #[trigger] operand_at(blocks, i, phi, k, j) matches Some(v)
        ==> (live_reg(v) matches Some(r) ==> defines(blocks, r) || r.0 < nargs)
}

/// A function whose blocks form a consistent control flow graph, starting at block 0, whose
/// phi functions each take one value from every predecessor of their block, in order, and
/// which is in static single assignment form: no register is defined at two places, none
/// that a parameter holds is defined at all, and every register read (but as a `void` value)
/// is defined or holds a parameter.
pub open spec fn function_wf(f: ir::Function) -> bool {
    &&& f.blocks@.len() >= 1
    &&& cfg_wf(f.blocks@)
    &&& phis_match(f.blocks@)
    &&& single_defs(f.blocks@)
    &&& forall|r: RegNum| #[trigger] defines(f.blocks@, r) ==> f.args@.len() <= r.0
    &&& reads_defined(f.blocks@, f.args@.len())
}

/// The function's signature in the IR: its name, its return type, and its parameters, which
/// get registers 0, 1, ... in order, each with the IR type of its declared type.
pub open spec fn signature_matches(f: ir::Function, fun_def: ast::FunDef) -> bool {
    &&& f.name@ == fun_def.name.inner@
    &&& f.ret_type@ == spec_from_ast(fun_def.ret_type.inner@)
    &&& f.args@.len() == fun_def.args@.len()
    &&& forall|i: int| 0 <= i < f.args@.len() ==> (#[trigger] f.args@[i]).0 == RegNum(i as u32)
            && f.args@[i].1@ == spec_from_ast(fun_def.args@[i].0.inner@)
}

impl<'a> FunctionCodeGen<'a> {
    /// The IR of a function: its parameters are declared in the parameters' frame, its body
    /// is compiled from a first block, and a block where control falls off the end returns
    /// nothing. Also gives back the global strings, the function's own added after the others.
    /// Fails where the body holds a construct that is not generated, a name that no frame
    /// declares, a name declared twice in one frame, or a parameter name used twice.
    pub fn generate_function_ir(self, fun_def: &ast::FunDef) -> (res: Option<(ir::Function, NameMap<GlobalStrNum>)>)
        requires
            self.wf(),
            self.fresh(),
        ensures
            res matches Some((f, gs)) ==> function_wf(f) && signature_matches(f, *fun_def)
                && strings_wf(gs) && strings_extend(self.strings(), gs),
            res matches Some((f, _)) ==> first_return_kept(f, *fun_def),
            cg_stmts(self.functions(), body_scope(fun_def.args@), fun_def.body.stmts@).ok && !self.in_method()
                && param_names_distinct(fun_def.args@)
                && fun_def.args@.len() + stmts_regs(fun_def.body.stmts@, vars_bound(fun_def.args@, fun_def.body.stmts@)) < 4294967295
                && 4 * stmts_size(fun_def.body.stmts@) + 3 < 4294967294 ==> res is Some,
    {
        let mut this = self;
        let mut ir_args: Vec<(RegNum, Type)> = Vec::new();
        let mut i: usize = 0;
        while i < fun_def.args.len()
            invariant
                this.wf(),
                this.blocks().len() == 0,
                this.strings() == self.strings(),
                this.next_reg() == i,
                i <= fun_def.args@.len(),
                ir_args@.len() == i,
                forall|j: int| 0 <= j < i ==> (#[trigger] ir_args@[j]).0 == RegNum(j as u32)
                    && ir_args@[j].1@ == spec_from_ast(fun_def.args@[j].0.inner@),
                this.contexts() == self.contexts(),
                forall|n: Seq<char>| #[trigger] this.env.frame_locals(Label(ARGS_LABEL_NO)).contains_key(n)
                    ==> exists|j: int| 0 <= j < i && fun_def.args@[j].1.inner@ == n,
                this.env.vars_typed(Label(ARGS_LABEL_NO), params_vars(fun_def.args@.take(i as int))),
                forall|r: RegNum| #[trigger] this.open_regs@.contains(r) ==> r.0 < i,
                forall|j: int| 0 <= j < i ==> this.env.frame_locals(Label(ARGS_LABEL_NO)).contains_key(#[trigger] fun_def.args@[j].1.inner@),
                forall|j: int| 0 <= j < i && param_names_distinct(fun_def.args@) ==> (#[trigger] this.env.frame_locals(Label(ARGS_LABEL_NO))[fun_def.args@[j].1.inner@])@
                    == ir::ValueModel::Register(j as u32, spec_from_ast(fun_def.args@[j].0.inner@)),
            decreases fun_def.args@.len() - i,
        {
            let reg_num = match this.get_new_reg_num() {
                Some(r) => r,
                None => return None,
            };
            let ghost o1 = this.open_regs@;
            proof {
                lemma_settled_keep(this.blocks@, this.blocks@, o1, o1.insert(reg_num));
                lemma_env_settled_set(this.env, this.env, Label(ARGS_LABEL_NO), Seq::empty(), Value::LitInt(0),
                    this.blocks@, this.blocks@, o1, o1.insert(reg_num));
            }
            this.open_regs = Ghost(o1.insert(reg_num));
            let arg = &fun_def.args[i];
            let arg_type = Type::from_ast(&arg.0.inner);
            let arg_val = Value::Register(reg_num, arg_type.clone());
            ir_args.push((reg_num, arg_type));
            let ghost before_env = this.env;
            let ghost gv = arg_val;
            if !this.env.add_new_local_variable(Label(ARGS_LABEL_NO), arg.1.inner.as_str(), arg_val) {
                proof {
                    if param_names_distinct(fun_def.args@) {
                        let j = choose|j: int| 0 <= j < i && fun_def.args@[j].1.inner@ == arg.1.inner@;
                        assert(fun_def.args@[j].1.inner@ != fun_def.args@[i as int].1.inner@);
                    }
                }
                return None;
            }
            proof {
                lemma_env_below_set(before_env, this.env, Label(ARGS_LABEL_NO), arg.1.inner@, gv,
                    this.next_reg_num.0, this.next_reg_num.0);
                lemma_env_settled_set(before_env, this.env, Label(ARGS_LABEL_NO), arg.1.inner@, gv,
                    this.blocks@, this.blocks@, this.open_regs@, this.open_regs@);
                assert(fun_def.args@.take(i + 1).drop_last() =~= fun_def.args@.take(i as int));
                assert(spec_value_type(gv@) == spec_from_ast(fun_def.args@[i as int].0.inner@));
                lemma_add_var(before_env, this.env, Label(ARGS_LABEL_NO), arg.1.inner@, gv,
                    params_vars(fun_def.args@.take(i as int)));
                assert forall|n: Seq<char>| #[trigger] this.env.frame_locals(Label(ARGS_LABEL_NO)).contains_key(n)
                    implies exists|j: int| 0 <= j < i + 1 && fun_def.args@[j].1.inner@ == n by {
                    if n != arg.1.inner@ {
                        assert(before_env.frame_locals(Label(ARGS_LABEL_NO)).contains_key(n));
                    } else {
                        assert(fun_def.args@[i as int].1.inner@ == n);
                    }
                }
            }
            i = i + 1;
        }
        let ghost env_args = this.env;
        proof {
            assert forall|r: RegNum| !#[trigger] defines(this.blocks(), r) by {
                assert forall|j: int, p: bool, k: int| #[trigger] def_at(this.blocks(), j, p, k) is None by {}
            }
        }
        let entry_point = match this.allocate_new_block(Label(ARGS_LABEL_NO)) {
            Some(l) => l,
            None => return None,
        };
        proof {
            assert(fun_def.args@.take(fun_def.args@.len() as int) =~= fun_def.args@);
            lemma_frames_kept_vars_typed(env_args, this.env, Label(ARGS_LABEL_NO), params_vars(fun_def.args@));
            lemma_empty_child_vars_typed(this.env, entry_point, Label(ARGS_LABEL_NO), params_vars(fun_def.args@));
        }
        proof {
            lemma_params_vars_count(fun_def.args@);
        }
        let ghost env_pb = this.env;
        proof {
            if param_names_distinct(fun_def.args@) {
                assert forall|n: Seq<char>| #[trigger] env_vals(env_pb, entry_point)(n) == param_vals(fun_def.args@)(n) by {
                    lemma_empty_child_lookup(env_pb, entry_point, Label(ARGS_LABEL_NO), n);
                    assert(env_pb.frame_locals(Label(ARGS_LABEL_NO)) == env_args.frame_locals(Label(ARGS_LABEL_NO)));
                    assert(env_pb.frame_parent(Label(ARGS_LABEL_NO)) is None);
                    if exists|j: int| 0 <= j < fun_def.args@.len() && #[trigger] fun_def.args@[j].1.inner@ == n {
                        let j = choose|j: int| 0 <= j < fun_def.args@.len() && #[trigger] fun_def.args@[j].1.inner@ == n;
                        assert(env_args.frame_locals(Label(ARGS_LABEL_NO)).contains_key(fun_def.args@[j].1.inner@));
                    } else {
                        if env_args.frame_locals(Label(ARGS_LABEL_NO)).contains_key(n) {
                            let j = choose|j: int| 0 <= j < fun_def.args@.len() && fun_def.args@[j].1.inner@ == n;
                            assert(fun_def.args@[j].1.inner@ == n);
                        }
                    }
                }
                assert(env_vals(env_pb, entry_point) =~= param_vals(fun_def.args@));
            }
        }
        let last_label = match this.process_block(
            &fun_def.body,
            entry_point,
            false,
            Ghost(body_scope(fun_def.args@)),
            Ghost(vars_bound(fun_def.args@, fun_def.body.stmts@)),
        ) {
            Some(l) => l,
            None => return None,
        };
        if last_label.0 != UNREACHABLE_LABEL_NO {
            this.push_op(last_label, ir::Operation::Return(None));
        }
        proof {
            let bl = this.blocks@;
            assert forall|i: int, phi: bool, k: int, j: int| #[trigger] operand_at(bl, i, phi, k, j) matches Some(v)
                ==> (live_reg(v) matches Some(r) ==> defines(bl, r) || r.0 < fun_def.args@.len()) by {
                if let Some(v) = operand_at(bl, i, phi, k, j) {
                    assert(value_settled(bl, this.open_regs@, v));
                }
            }
        }
        let f = ir::Function {
            ret_type: Type::from_ast(&fun_def.ret_type.inner),
            name: fun_def.name.inner.clone(),
            args: ir_args,
            blocks: this.blocks,
        };
        Some((f, this.global_strings))
    }
}

} // verus!
