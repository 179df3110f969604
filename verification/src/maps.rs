//! Small maps: by name, and by 64-bit id.
use crate::text;
use std::collections::HashMap;
use vstd::prelude::*;

verus! {

broadcast use vstd::std_specs::hash::group_hash_axioms;

/// A map from names to values that keeps the order of first insertion.
#[derive(Debug)]
pub struct NamedMap<V> {
    entries: Vec<(String, V)>,
}

/// The map that a list of entries stands for: a later entry for a name
/// replaces an earlier one.
pub open spec fn map_of<V>(entries: Seq<(String, V)>) -> Map<Seq<char>, V>
    decreases entries.len(),
{
    if entries.len() == 0 {
        Map::empty()
    } else {
        map_of(entries.drop_last()).insert(entries.last().0@, entries.last().1)
    }
}

/// That no name has two entries.
pub open spec fn distinct_names<V>(entries: Seq<(String, V)>) -> bool {
    forall|i: int, j: int|
        0 <= i < j < entries.len() ==> (#[trigger] entries[i]).0@ != (#[trigger] entries[j]).0@
}

/// The views of the values of a map.
pub open spec fn value_views<V: View>(m: Map<Seq<char>, V>) -> Map<Seq<char>, V::V> {
    m.map_values(|v: V| v@)
}

proof fn lemma_map_of_last<V>(entries: Seq<(String, V)>, i: int)
    requires
        0 <= i < entries.len(),
        forall|j: int| i < j < entries.len() ==> (#[trigger] entries[j]).0@ != entries[i].0@,
    ensures
        map_of(entries).dom().contains(entries[i].0@),
        map_of(entries)[entries[i].0@] == entries[i].1,
    decreases entries.len(),
{
    if i + 1 < entries.len() {
        let shorter = entries.drop_last();
        assert forall|j: int| i < j < shorter.len() implies (#[trigger] shorter[j]).0@
            != shorter[i].0@ by {
            assert(shorter[j] == entries[j]);
        }
        lemma_map_of_last(shorter, i);
        assert(entries[entries.len() - 1].0@ != entries[i].0@);
    }
}

proof fn lemma_map_of_absent<V>(entries: Seq<(String, V)>, name: Seq<char>)
    requires
        forall|j: int| 0 <= j < entries.len() ==> (#[trigger] entries[j]).0@ != name,
    ensures
        !map_of(entries).dom().contains(name),
    decreases entries.len(),
{
    if entries.len() > 0 {
        let shorter = entries.drop_last();
        assert forall|j: int| 0 <= j < shorter.len() implies (#[trigger] shorter[j]).0@ != name by {
            assert(shorter[j] == entries[j]);
        }
        lemma_map_of_absent(shorter, name);
        assert(entries[entries.len() - 1].0@ != name);
    }
}

proof fn lemma_map_of_size<V>(entries: Seq<(String, V)>)
    requires
        distinct_names(entries),
    ensures
        map_of(entries).dom().finite(),
        map_of(entries).dom().len() == entries.len(),
    decreases entries.len(),
{
    if entries.len() > 0 {
        let shorter = entries.drop_last();
        assert forall|i: int, j: int| 0 <= i < j < shorter.len() implies (
        #[trigger] shorter[i]).0@ != (#[trigger] shorter[j]).0@ by {
            assert(entries[i].0@ != entries[j].0@);
        }
        lemma_map_of_size(shorter);
        let name = entries.last().0@;
        assert forall|j: int| 0 <= j < shorter.len() implies (#[trigger] shorter[j]).0@
            != name by {
            assert(entries[j].0@ != entries[entries.len() - 1].0@);
        }
        lemma_map_of_absent(shorter, name);
        assert(map_of(entries).dom() =~= map_of(shorter).dom().insert(name));
    }
}

proof fn lemma_map_of_update<V>(entries: Seq<(String, V)>, i: int, entry: (String, V))
    requires
        0 <= i < entries.len(),
        entries[i].0@ == entry.0@,
        forall|j: int| i < j < entries.len() ==> (#[trigger] entries[j]).0@ != entry.0@,
    ensures
        map_of(entries.update(i, entry)) == map_of(entries).insert(entry.0@, entry.1),
    decreases entries.len(),
{
    let updated = entries.update(i, entry);
    if i + 1 == entries.len() {
        assert(updated.drop_last() =~= entries.drop_last());
        assert(map_of(updated) =~= map_of(entries).insert(entry.0@, entry.1));
    } else {
        let shorter = entries.drop_last();
        assert forall|j: int| i < j < shorter.len() implies (#[trigger] shorter[j]).0@
            != entry.0@ by {
            assert(shorter[j] == entries[j]);
        }
        lemma_map_of_update(shorter, i, entry);
        assert(updated.drop_last() =~= shorter.update(i, entry));
        assert(entries[entries.len() - 1].0@ != entry.0@);
        assert(map_of(updated) =~= map_of(entries).insert(entry.0@, entry.1));
    }
}

impl<V> View for NamedMap<V> {
    type V = Map<Seq<char>, V>;

    open spec fn view(&self) -> Map<Seq<char>, V> {
        map_of(self.list())
    }
}

impl<V> NamedMap<V> {
    #[verifier::type_invariant]
    spec fn one_entry_per_name(&self) -> bool {
        distinct_names(self.entries@)
    }

    /// The entries as they are held.
    pub closed spec fn list(&self) -> Seq<(String, V)> {
        self.entries@
    }

    pub fn new() -> (r: Self)
        ensures
            r@ == Map::<Seq<char>, V>::empty(),
            r.list().len() == 0,
    {
        NamedMap { entries: Vec::new() }
    }

    /// The position of the entry that counts for a name.
    fn position(&self, name: &str) -> (r: Option<usize>)
        ensures
            match r {
                Some(i) => i < self.entries@.len() && self.entries@[i as int].0@ == name@
                    && forall|j: int|
                    i < j < self.entries@.len() ==> (#[trigger] self.entries@[j]).0@ != name@,
                None => forall|j: int|
                    0 <= j < self.entries@.len() ==> (#[trigger] self.entries@[j]).0@ != name@,
            },
    {
        let mut i: usize = self.entries.len();
        while i > 0
            invariant
                i <= self.entries@.len(),
                forall|j: int|
                    i <= j < self.entries@.len() ==> (#[trigger] self.entries@[j]).0@ != name@,
            decreases i,
        {
            i = i - 1;
            if text::str_eq(self.entries[i].0.as_str(), name) {
                return Some(i);
            }
        }
        None
    }

    pub fn get(&self, name: &str) -> (r: Option<&V>)
        ensures
            match r {
                Some(v) => self@.dom().contains(name@) && self@[name@] == *v,
                None => !self@.dom().contains(name@),
            },
    {
        match self.position(name) {
            Some(i) => {
                proof {
                    lemma_map_of_last(self.entries@, i as int);
                }
                Some(&self.entries[i].1)
            },
            None => {
                proof {
                    lemma_map_of_absent(self.entries@, name@);
                }
                None
            },
        }
    }

    /// Sets the value of a name: in its place, or at the end where it is new.
    pub fn insert(&mut self, name: String, value: V)
        ensures
            final(self)@ == old(self)@.insert(name@, value),
            !old(self)@.dom().contains(name@) ==> final(self).list() == old(self).list().push(
                (name, value),
            ),
            old(self)@.dom().contains(name@) ==> exists|i: int|
                0 <= i < old(self).list().len() && (#[trigger] old(self).list()[i]).0@ == name@
                    && final(self).list() == old(self).list().update(i, (name, value)),
    {
        let ghost before = self.entries@;
        proof {
            use_type_invariant(&*self);
            lemma_map_of_names(before, name@);
        }
        let at = self.position(name.as_str());
        let mut entries: Vec<(String, V)> = Vec::new();
        std::mem::swap(&mut self.entries, &mut entries);
        match at {
            Some(i) => {
                proof {
                    lemma_map_of_update(before, i as int, (name, value));
                }
                entries.set(i, (name, value));
                assert(before[i as int].0@ == name@);
            },
            None => {
                entries.push((name, value));
                assert(entries@.drop_last() =~= before);
            },
        }
        self.entries = entries;
    }

    /// How many names have a value.
    pub fn len(&self) -> (r: usize)
        ensures
            r == self.list().len(),
            self@.dom().finite(),
            r == self@.dom().len(),
    {
        proof {
            use_type_invariant(self);
            lemma_map_of_size(self.entries@);
        }
        self.entries.len()
    }

    /// The name and the value of an entry.
    pub fn entry(&self, i: usize) -> (r: (&String, &V))
        requires
            i < self.list().len(),
        ensures
            *r.0 == self.list()[i as int].0,
            *r.1 == self.list()[i as int].1,
            self@.dom().contains(r.0@),
            self@[r.0@] == *r.1,
    {
        proof {
            use_type_invariant(self);
            lemma_map_of_last(self.entries@, i as int);
        }
        let e = &self.entries[i];
        (&e.0, &e.1)
    }

    /// The names that have a value, in the order of the entries.
    pub fn names(&self) -> (r: Vec<String>)
        ensures
            r@.len() == self.list().len(),
            forall|i: int| 0 <= i < r@.len() ==> (#[trigger] r@[i])@ == self.list()[i].0@,
            forall|name: Seq<char>| #[trigger]
                text::views(r@).contains(name) <==> self@.dom().contains(name),
    {
        let mut out: Vec<String> = Vec::new();
        let mut i: usize = 0;
        while i < self.entries.len()
            invariant
                i <= self.entries@.len(),
                out@.len() == i,
                forall|k: int| 0 <= k < i ==> (#[trigger] out@[k])@ == self.entries@[k].0@,
            decreases self.entries.len() - i,
        {
            out.push(self.entries[i].0.clone());
            i = i + 1;
        }
        assert forall|name: Seq<char>| #[trigger]
            text::views(out@).contains(name) <==> self@.dom().contains(name) by {
            lemma_map_of_names(self.entries@, name);
            if text::views(out@).contains(name) {
                let k = choose|k: int| 0 <= k < out@.len() && text::views(out@)[k] == name;
                assert(out@[k]@ == self.entries@[k].0@);
                assert(self.entries@[k].0@ == name);
            }
            if self@.dom().contains(name) {
                let k = choose|k: int|
                    0 <= k < self.entries@.len() && (#[trigger] self.entries@[k]).0@ == name;
                assert(out@[k]@ == self.entries@[k].0@);
                assert(text::views(out@)[k] == name);
            }
        }
        out
    }
}

impl<V: Clone> Clone for NamedMap<V> {
    fn clone(&self) -> (r: Self)
        ensures
            r.list().len() == self.list().len(),
            forall|i: int|
                0 <= i < r.list().len() ==> (#[trigger] r.list()[i]).0@ == self.list()[i].0@
                    && cloned::<V>(self.list()[i].1, r.list()[i].1),
    {
        proof {
            use_type_invariant(self);
        }
        let mut entries: Vec<(String, V)> = Vec::new();
        let mut i: usize = 0;
        while i < self.entries.len()
            invariant
                i <= self.entries@.len(),
                entries@.len() == i,
                forall|k: int|
                    0 <= k < i ==> (#[trigger] entries@[k]).0@ == self.entries@[k].0@
                        && cloned::<V>(self.entries@[k].1, entries@[k].1),
            decreases self.entries.len() - i,
        {
            entries.push((self.entries[i].0.clone(), self.entries[i].1.clone()));
            i = i + 1;
        }
        assert(distinct_names(entries@)) by {
            assert forall|i: int, j: int| 0 <= i < j < entries@.len() implies (
            #[trigger] entries@[i]).0@ != (#[trigger] entries@[j]).0@ by {
                assert(self.entries@[i].0@ != self.entries@[j].0@);
            }
        }
        NamedMap { entries }
    }
}

impl<V: Copy> NamedMap<V> {
    /// A copy of the map.
    pub fn copied(&self) -> (r: Self)
        ensures
            r@ == self@,
            r.list() == self.list(),
    {
        proof {
            use_type_invariant(self);
        }
        let mut entries: Vec<(String, V)> = Vec::new();
        let mut i: usize = 0;
        while i < self.entries.len()
            invariant
                i <= self.entries@.len(),
                entries@ == self.entries@.take(i as int),
            decreases self.entries.len() - i,
        {
            entries.push((self.entries[i].0.clone(), self.entries[i].1));
            assert(entries@ =~= self.entries@.take(i + 1));
            i = i + 1;
        }
        assert(entries@ =~= self.entries@);
        NamedMap { entries }
    }
}

/// Values that can be compared.
pub trait Same: Copy {
    fn is_same(&self, other: &Self) -> (r: bool)
        ensures
            r == (*self == *other),
    ;
}

impl Same for u32 {
    fn is_same(&self, other: &Self) -> (r: bool) {
        *self == *other
    }
}

impl Same for usize {
    fn is_same(&self, other: &Self) -> (r: bool) {
        *self == *other
    }
}

proof fn lemma_map_of_names<V>(entries: Seq<(String, V)>, name: Seq<char>)
    ensures
        map_of(entries).dom().contains(name) <==> exists|i: int|
            0 <= i < entries.len() && (#[trigger] entries[i]).0@ == name,
    decreases entries.len(),
{
    if entries.len() > 0 {
        let shorter = entries.drop_last();
        lemma_map_of_names(shorter, name);
        if exists|i: int| 0 <= i < shorter.len() && (#[trigger] shorter[i]).0@ == name {
            let i = choose|i: int| 0 <= i < shorter.len() && (#[trigger] shorter[i]).0@ == name;
            assert(entries[i].0@ == name);
        }
        if exists|i: int| 0 <= i < entries.len() && (#[trigger] entries[i]).0@ == name {
            let i = choose|i: int| 0 <= i < entries.len() && (#[trigger] entries[i]).0@ == name;
            if i < shorter.len() {
                assert(shorter[i].0@ == name);
            }
        }
        assert(entries[entries.len() - 1] == entries.last());
    }
}

impl<V: Same> NamedMap<V> {
    /// Whether every name of this map has the same value in the other one.
    fn within(&self, other: &Self) -> (r: bool)
        ensures
            r == (forall|name: Seq<char>| #[trigger]
                self@.dom().contains(name) ==> other@.dom().contains(name) && other@[name]
                    == self@[name]),
    {
        let mut i: usize = 0;
        while i < self.entries.len()
            invariant
                i <= self.entries@.len(),
                forall|k: int|
                    0 <= k < i ==> other@.dom().contains((#[trigger] self.entries@[k]).0@)
                        && other@[self.entries@[k].0@] == self@[self.entries@[k].0@],
            decreases self.entries.len() - i,
        {
            let name = self.entries[i].0.as_str();
            proof {
                assert(self.entries@[i as int].0@ == name@);
                lemma_map_of_names(self.entries@, name@);
                assert(self@.dom().contains(name@));
            }
            match (self.get(name), other.get(name)) {
                (Some(a), Some(b)) => {
                    if !b.is_same(a) {
                        return false;
                    }
                },
                _ => {
                    return false;
                },
            }
            i = i + 1;
        }
        assert forall|name: Seq<char>| #[trigger] self@.dom().contains(name) implies other@
            .dom().contains(name) && other@[name] == self@[name] by {
            lemma_map_of_names(self.entries@, name);
            let k = choose|k: int|
                0 <= k < self.entries@.len() && (#[trigger] self.entries@[k]).0@ == name;
            assert(self.entries@[k].0@ == name);
        }
        true
    }

    /// Whether two maps are the same.
    pub fn same(&self, other: &Self) -> (r: bool)
        ensures
            r == (self@ == other@),
    {
        let r = self.within(other) && other.within(self);
        proof {
            if r {
                assert(self@.dom() =~= other@.dom());
                assert(self@ =~= other@);
            }
        }
        r
    }
}

/// A map from 64-bit ids to values that keeps the order of first insertion.
#[derive(Debug)]
pub struct IdMap<V> {
    keys: Vec<u64>,
    values: Vec<V>,
    index: HashMap<u64, usize>,
}

impl<V> IdMap<V> {
    pub closed spec fn wf(&self) -> bool {
        &&& self.keys@.len() == self.values@.len()
        &&& forall|k: u64|
            #![trigger self.index@.dom().contains(k)]
            self.index@.dom().contains(k) ==> self.index@[k] < self.keys@.len()
                && self.keys@[self.index@[k] as int] == k
        &&& forall|i: int|
            0 <= i < self.keys@.len() ==> self.index@.dom().contains(#[trigger] self.keys@[i])
                && self.index@[self.keys@[i]] == i
    }

    /// The ids in the order of their first insertion.
    pub closed spec fn order(&self) -> Seq<u64> {
        self.keys@
    }

    pub closed spec fn map(&self) -> Map<u64, V> {
        Map::new(
            |k: u64| self.index@.dom().contains(k),
            |k: u64| self.values@[self.index@[k] as int],
        )
    }

    pub fn new() -> (r: Self)
        ensures
            r.wf(),
            r.map() == Map::<u64, V>::empty(),
            r.order() == Seq::<u64>::empty(),
    {
        let r = IdMap { keys: Vec::new(), values: Vec::new(), index: HashMap::new() };
        assert(r.map() =~= Map::<u64, V>::empty());
        r
    }

    pub fn len(&self) -> (r: usize)
        ensures
            r == self.order().len(),
    {
        self.keys.len()
    }

    pub fn key(&self, i: usize) -> (r: u64)
        requires
            i < self.order().len(),
        ensures
            r == self.order()[i as int],
    {
        self.keys[i]
    }

    pub fn get(&self, k: u64) -> (r: Option<&V>)
        requires
            self.wf(),
        ensures
            match r {
                Some(v) => self.map().dom().contains(k) && self.map()[k] == *v,
                None => !self.map().dom().contains(k),
            },
    {
        match self.index.get(&k) {
            Some(i) => {
                assert(self.index@.dom().contains(k));
                Some(&self.values[*i])
            },
            None => None,
        }
    }

    /// Sets the value of an id.
    pub fn insert(&mut self, k: u64, v: V)
        requires
            old(self).wf(),
        ensures
            final(self).wf(),
            final(self).map() == old(self).map().insert(k, v),
            final(self).order() == (if old(self).map().dom().contains(k) {
                old(self).order()
            } else {
                old(self).order().push(k)
            }),
    {
        let at: Option<usize> = match self.index.get(&k) {
            Some(i) => Some(*i),
            None => None,
        };
        let ghost before = *self;
        match at {
            Some(i) => {
                assert(before.index@.dom().contains(k));
                self.values.set(i, v);
                assert forall|x: u64|
                    before.map().dom().contains(x) && x != k implies before.index@[x] != i by {
                    assert(before.index@.dom().contains(x));
                }
                assert(self.map() =~= before.map().insert(k, v));
            },
            None => {
                let n: usize = self.keys.len();
                self.keys.push(k);
                self.values.push(v);
                self.index.insert(k, n);
                assert forall|i: int| 0 <= i < self.keys@.len() implies self.index@.dom().contains(
                    #[trigger] self.keys@[i],
                ) && self.index@[self.keys@[i]] == i by {
                    if i < n {
                        assert(self.keys@[i] == before.keys@[i]);
                        assert(before.index@.dom().contains(before.keys@[i]));
                    }
                }
                assert forall|x: u64|
                    #![trigger self.index@.dom().contains(x)]
                    self.index@.dom().contains(x) implies self.index@[x] < self.keys@.len()
                    && self.keys@[self.index@[x] as int] == x by {
                    if x != k {
                        assert(before.index@.dom().contains(x));
                    }
                }
                assert forall|x: u64| before.map().dom().contains(x) implies before.map()[x]
                    == self.map()[x] by {
                    assert(before.index@.dom().contains(x));
                }
                assert(self.map() =~= before.map().insert(k, v));
            },
        }
    }

    /// The ids in order are the ids of the map, each once.
    pub proof fn lemma_order(&self)
        requires
            self.wf(),
        ensures
            self.order().no_duplicates(),
            forall|k: u64| self.map().dom().contains(k) <==> self.order().contains(k),
    {
        assert forall|i: int, j: int|
            0 <= i < self.order().len() && 0 <= j < self.order().len() && i != j implies self.order()[i]
            != self.order()[j] by {
            assert(self.index@.dom().contains(self.keys@[i]));
            assert(self.index@.dom().contains(self.keys@[j]));
        }
        assert forall|k: u64| self.map().dom().contains(k) implies self.order().contains(k) by {
            assert(self.index@.dom().contains(k));
            assert(self.keys@[self.index@[k] as int] == k);
        }
    }
}

} // verus!
