use vstd::prelude::*;
use crate::text::str_eq;

verus! {

/// A finite map from names to values that remembers the order in which names were first added.
pub struct NameMap<V> {
    entries: Vec<(String, V)>,
}

/// The map that a list of entries describes, later entries winning.
pub open spec fn entries_map<V>(entries: Seq<(String, V)>) -> Map<Seq<char>, V>
    decreases entries.len(),
{
    if entries.len() == 0 {
        Map::empty()
    } else {
        entries_map(entries.drop_last()).insert(entries.last().0@, entries.last().1)
    }
}

/// No name occurs twice.
pub open spec fn distinct_names<V>(entries: Seq<(String, V)>) -> bool {
    forall|i: int, j: int|
        0 <= i < entries.len() && 0 <= j < entries.len() && i != j ==> #[trigger] entries[i].0@
            != #[trigger] entries[j].0@
}

proof fn lemma_entries_map<V>(entries: Seq<(String, V)>)
    requires
        distinct_names(entries),
    ensures
        forall|k: Seq<char>|
            #[trigger] entries_map(entries).contains_key(k) <==> exists|i: int|
                0 <= i < entries.len() && entries[i].0@ == k,
        forall|i: int|
            0 <= i < entries.len() ==> entries_map(entries).contains_key(#[trigger] entries[i].0@)
                && entries_map(entries)[entries[i].0@] == entries[i].1,
        entries_map(entries).dom().finite(),
        entries_map(entries).dom().len() == entries.len(),
    decreases entries.len(),
{
    if entries.len() > 0 {
        let prefix = entries.drop_last();
        assert(distinct_names(prefix));
        lemma_entries_map(prefix);
        let last = entries.last();
        assert(!entries_map(prefix).contains_key(last.0@)) by {
            if entries_map(prefix).contains_key(last.0@) {
                let i = choose|i: int| 0 <= i < prefix.len() && prefix[i].0@ == last.0@;
                assert(entries[i].0@ == entries[entries.len() - 1].0@);
            }
        }
        assert forall|k: Seq<char>|
            #[trigger] entries_map(entries).contains_key(k) implies exists|i: int|
                0 <= i < entries.len() && entries[i].0@ == k by {
            if k != last.0@ {
                let i = choose|i: int| 0 <= i < prefix.len() && prefix[i].0@ == k;
                assert(entries[i].0@ == k);
            } else {
                assert(entries[entries.len() - 1].0@ == k);
            }
        }
        assert forall|k: Seq<char>|
            (exists|i: int| 0 <= i < entries.len() && entries[i].0@ == k) implies
                #[trigger] entries_map(entries).contains_key(k) by {
            let i = choose|i: int| 0 <= i < entries.len() && entries[i].0@ == k;
            if i < entries.len() - 1 {
                assert(prefix[i].0@ == k);
            }
        }
        assert forall|i: int| 0 <= i < entries.len() implies entries_map(entries).contains_key(
            #[trigger] entries[i].0@,
        ) && entries_map(entries)[entries[i].0@] == entries[i].1 by {
            if i < entries.len() - 1 {
                assert(prefix[i] == entries[i]);
                assert(entries[i].0@ != last.0@);
            }
        }
    }
}

impl<V> View for NameMap<V> {
    type V = Map<Seq<char>, V>;

    closed spec fn view(&self) -> Map<Seq<char>, V> {
        entries_map(self.entries@)
    }
}

impl<V> NameMap<V> {
    /// The entries in the order in which their names were first added.
    pub closed spec fn entries(&self) -> Seq<(String, V)> {
        self.entries@
    }

    /// Every name occurs once.
    pub closed spec fn wf(&self) -> bool {
        distinct_names(self.entries@)
    }

    /// The entries describe the map, each name once.
    pub proof fn lemma_view(&self)
        requires
            self.wf(),
        ensures
            forall|k: Seq<char>|
                #[trigger] self@.contains_key(k) <==> exists|i: int|
                    0 <= i < self.entries().len() && self.entries()[i].0@ == k,
            forall|i: int|
                0 <= i < self.entries().len() ==> self@.contains_key(
                    #[trigger] self.entries()[i].0@,
                ) && self@[self.entries()[i].0@] == self.entries()[i].1,
            forall|i: int, j: int|
                0 <= i < self.entries().len() && 0 <= j < self.entries().len() && i != j
                    ==> #[trigger] self.entries()[i].0@ != #[trigger] self.entries()[j].0@,
            self@.dom().finite(),
            self@.dom().len() == self.entries().len(),
    {
        lemma_entries_map(self.entries@);
        assert forall|k: Seq<char>|
            #[trigger] self@.contains_key(k) <==> exists|i: int|
                0 <= i < self.entries().len() && self.entries()[i].0@ == k by {
            if self@.contains_key(k) {
                let i = choose|i: int| 0 <= i < self.entries@.len() && self.entries@[i].0@ == k;
                assert(self.entries()[i].0@ == k);
            }
            if exists|i: int| 0 <= i < self.entries().len() && self.entries()[i].0@ == k {
                let i = choose|i: int| 0 <= i < self.entries().len() && self.entries()[i].0@ == k;
                assert(self.entries@[i].0@ == k);
            }
        }
    }

    /// The empty map.
    pub fn new() -> (res: Self)
        ensures
            res.wf(),
            res@ == Map::<Seq<char>, V>::empty(),
            res.entries().len() == 0,
    {
        NameMap { entries: Vec::new() }
    }

    /// The number of names.
    pub fn len(&self) -> (res: usize)
        ensures
            res == self.entries().len(),
    {
        self.entries.len()
    }

    /// The position of `key` among the entries, if it is there.
    fn find(&self, key: &str) -> (res: Option<usize>)
        requires
            self.wf(),
        ensures
            match res {
                Some(i) => i < self.entries().len() && self.entries()[i as int].0@ == key@,
                None => !self@.contains_key(key@),
            },
    {
        proof {
            lemma_entries_map(self.entries@);
        }
        let mut i: usize = 0;
        while i < self.entries.len()
            invariant
                i <= self.entries@.len(),
                forall|j: int| 0 <= j < i ==> self.entries@[j].0@ != key@,
            decreases self.entries@.len() - i,
        {
            if str_eq(self.entries[i].0.as_str(), key) {
                return Some(i);
            }
            i = i + 1;
        }
        None
    }

    /// The value stored under `key`.
    pub fn get(&self, key: &str) -> (res: Option<&V>)
        requires
            self.wf(),
        ensures
            match res {
                Some(v) => self@.contains_key(key@) && *v == self@[key@],
                None => !self@.contains_key(key@),
            },
    {
        proof {
            lemma_entries_map(self.entries@);
        }
        match self.find(key) {
            Some(i) => Some(&self.entries[i].1),
            None => None,
        }
    }

    /// Whether `key` is stored.
    pub fn contains_key(&self, key: &str) -> (res: bool)
        requires
            self.wf(),
        ensures
            res == self@.contains_key(key@),
    {
        proof {
            lemma_entries_map(self.entries@);
        }
        self.find(key).is_some()
    }

    /// Stores `value` under `key`, replacing and returning what was stored there before.
    /// A new name goes after all others; a known name keeps its place.
    pub fn insert(&mut self, key: String, value: V) -> (res: Option<V>)
        requires
            old(self).wf(),
        ensures
            final(self).wf(),
            final(self)@ == old(self)@.insert(key@, value),
            old(self)@.contains_key(key@) ==> res == Some(old(self)@[key@]),
            !old(self)@.contains_key(key@) ==> res is None,
            old(self)@.contains_key(key@) ==> final(self).entries().len() == old(self).entries().len()
                && forall|i: int| 0 <= i < old(self).entries().len() ==> (#[trigger] final(self).entries()[i]).0@ == old(self).entries()[i].0@,
            !old(self)@.contains_key(key@) ==> final(self).entries() == old(self).entries().push((key, value)),
    {
        proof {
            lemma_entries_map(self.entries@);
        }
        match self.find(key.as_str()) {
            Some(i) => {
                let ghost old_entries = self.entries@;
                let mut entry = (key, value);
                std::mem::swap(&mut entry, &mut self.entries[i]);
                proof {
                    assert(self.entries@ == old_entries.update(i as int, (key, value)));
                    assert(distinct_names(self.entries@));
                    lemma_entries_map(self.entries@);
                    let new_map = entries_map(self.entries@);
                    let old_map = entries_map(old_entries);
                    assert forall|k: Seq<char>| new_map.contains_key(k) <==> #[trigger] old_map.insert(key@, value).contains_key(k) by {
                        if new_map.contains_key(k) {
                            let j = choose|j: int| 0 <= j < self.entries@.len() && self.entries@[j].0@ == k;
                            assert(old_entries[j].0@ == k);
                        }
                        if old_map.contains_key(k) {
                            let j = choose|j: int| 0 <= j < old_entries.len() && old_entries[j].0@ == k;
                            assert(self.entries@[j].0@ == k);
                        }
                    }
                    assert forall|k: Seq<char>| #[trigger] new_map.contains_key(k) implies new_map[k] == old_map.insert(key@, value)[k] by {
                        let j = choose|j: int| 0 <= j < self.entries@.len() && self.entries@[j].0@ == k;
                        if j != i {
                            assert(old_entries[j] == self.entries@[j]);
                        }
                    }
                    assert(new_map =~= old_map.insert(key@, value));
                }
                Some(entry.1)
            },
            None => {
                let ghost old_entries = self.entries@;
                self.entries.push((key, value));
                proof {
                    assert(self.entries@.drop_last() == old_entries);
                    assert(distinct_names(self.entries@)) by {
                        assert forall|a: int, b: int|
                            0 <= a < self.entries@.len() && 0 <= b < self.entries@.len() && a != b
                                implies #[trigger] self.entries@[a].0@ != #[trigger] self.entries@[b].0@ by {
                            if a < old_entries.len() && b < old_entries.len() {
                                assert(old_entries[a] == self.entries@[a]);
                                assert(old_entries[b] == self.entries@[b]);
                            } else if a < old_entries.len() {
                                assert(old_entries[a] == self.entries@[a]);
                            } else if b < old_entries.len() {
                                assert(old_entries[b] == self.entries@[b]);
                            }
                        }
                    }
                }
                None
            },
        }
    }

    /// The entries, given up, in insertion order.
    pub fn into_entries(self) -> (res: Vec<(String, V)>)
        ensures
            res@ == self.entries(),
    {
        self.entries
    }

    /// The name and value at position `i` in insertion order.
    pub fn entry_at(&self, i: usize) -> (res: &(String, V))
        requires
            i < self.entries().len(),
        ensures
            *res == self.entries()[i as int],
    {
        &self.entries[i]
    }
}


/// Two entry lists with the same names and values, name by name, describe the same map.
proof fn lemma_entries_map_same<V>(a: Seq<(String, V)>, b: Seq<(String, V)>)
    requires
        a.len() == b.len(),
        forall|i: int| 0 <= i < a.len() ==> (#[trigger] a[i]).0@ == b[i].0@ && a[i].1 == b[i].1,
    ensures
        entries_map(a) == entries_map(b),
    decreases a.len(),
{
    if a.len() > 0 {
        lemma_entries_map_same(a.drop_last(), b.drop_last());
        assert(a.last().0@ == b.last().0@);
    }
}

impl<V: Copy> NameMap<V> {
    /// A copy with the same entries in the same order.
    pub fn copy(&self) -> (res: Self)
        requires
            self.wf(),
        ensures
            res.wf(),
            res@ == self@,
            res.entries().len() == self.entries().len(),
            forall|i: int| 0 <= i < self.entries().len() ==> (#[trigger] res.entries()[i]).0@ == self.entries()[i].0@
                && res.entries()[i].1 == self.entries()[i].1,
    {
        let mut entries: Vec<(String, V)> = Vec::new();
        let mut i: usize = 0;
        while i < self.entries.len()
            invariant
                i <= self.entries@.len(),
                entries@.len() == i,
                forall|j: int| 0 <= j < i ==> (#[trigger] entries@[j]).0@ == self.entries@[j].0@
                    && entries@[j].1 == self.entries@[j].1,
            decreases self.entries@.len() - i,
        {
            let e = &self.entries[i];
            entries.push((e.0.clone(), e.1));
            i = i + 1;
        }
        proof {
            lemma_entries_map_same(entries@, self.entries@);
            assert forall|a: int, b: int|
                0 <= a < entries@.len() && 0 <= b < entries@.len() && a != b
                    implies #[trigger] entries@[a].0@ != #[trigger] entries@[b].0@ by {
                assert(self.entries@[a].0@ != self.entries@[b].0@);
            }
        }
        NameMap { entries }
    }
}

} // verus!
