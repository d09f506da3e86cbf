//! Association lists: maps and sets kept in vectors, with keys compared by their views.
//!
//! State resolution keys its tables by strings and by pairs of strings. The tables here keep
//! their entries in insertion order, so that walking one is deterministic, and expose both
//! that order (`entries`, `elements`) and the mathematical map or set (`view`).

use vstd::prelude::*;

verus! {

/// A type that can key a table: equality and cloning go by the view.
pub trait Key: View + Sized {
    fn key_eq(&self, other: &Self) -> (b: bool)
        ensures
            b == (self@ == other@),
    ;

    fn key_clone(&self) -> (r: Self)
        ensures
            r@ == self@,
    ;
}

impl Key for String {
    fn key_eq(&self, other: &Self) -> (b: bool) {
        *self == *other
    }

    fn key_clone(&self) -> (r: Self) {
        self.clone()
    }
}

/// The keys of a sequence of entries, in order.
pub open spec fn entry_keys<A, B>(s: Seq<(A, B)>) -> Seq<A> {
    Seq::new(s.len(), |i: int| s[i].0)
}

/// The map that a sequence of entries with distinct keys stands for.
pub open spec fn entries_map<A, B>(s: Seq<(A, B)>) -> Map<A, B> {
    Map::new(
        |k: A| entry_keys(s).contains(k),
        |k: A| s[entry_keys(s).index_of(k)].1,
    )
}

/// The entries after an insertion: a key that is there keeps its place and gets the new
/// value, a new key goes to the end.
pub open spec fn entries_insert<A, B>(s: Seq<(A, B)>, k: A, v: B) -> Seq<(A, B)> {
    if entry_keys(s).contains(k) {
        s.update(entry_keys(s).index_of(k), (k, v))
    } else {
        s.push((k, v))
    }
}

/// What `entries_map` is, entry by entry, when the keys are distinct.
pub proof fn lemma_entries_map<A, B>(s: Seq<(A, B)>)
    requires
        entry_keys(s).no_duplicates(),
    ensures
        entries_map(s).dom().finite(),
        entries_map(s).dom() == entry_keys(s).to_set(),
        entries_map(s).dom().len() == s.len(),
        forall|i: int| 0 <= i < s.len() ==> entries_map(s).contains_key(#[trigger] s[i].0),
        forall|i: int| 0 <= i < s.len() ==> entries_map(s)[#[trigger] s[i].0] == s[i].1,
        forall|k: A| #[trigger]
            entries_map(s).contains_key(k) ==> exists|i: int|
                0 <= i < s.len() && s[i].0 == k && s[i].1 == entries_map(s)[k],
{
    let keys = entry_keys(s);
    vstd::seq_lib::seq_to_set_is_finite(keys);
    assert(entries_map(s).dom() =~= keys.to_set());
    keys.unique_seq_to_set();
    assert forall|i: int| 0 <= i < s.len() implies entries_map(s).contains_key(#[trigger] s[i].0)
        && entries_map(s)[s[i].0] == s[i].1 by {
        assert(keys[i] == s[i].0);
        let j = keys.index_of(s[i].0);
        assert(keys[j] == keys[i]);
    }
    assert forall|k: A| #[trigger] entries_map(s).contains_key(k) implies exists|i: int|
        0 <= i < s.len() && s[i].0 == k && s[i].1 == entries_map(s)[k] by {
        let j = keys.index_of(k);
        assert(keys[j] == k);
        assert(s[j].0 == k);
    }
}

/// Appending an entry with a fresh key inserts it into the map.
pub proof fn lemma_entries_map_push<A, B>(s: Seq<(A, B)>, k: A, v: B)
    requires
        entry_keys(s).no_duplicates(),
        !entry_keys(s).contains(k),
    ensures
        entry_keys(s.push((k, v))).no_duplicates(),
        entry_keys(s.push((k, v))) == entry_keys(s).push(k),
        entries_map(s.push((k, v))) == entries_map(s).insert(k, v),
{
    let t = s.push((k, v));
    assert(entry_keys(t) =~= entry_keys(s).push(k));
    assert forall|i: int, j: int|
        0 <= i < entry_keys(t).len() && 0 <= j < entry_keys(t).len() && i != j implies entry_keys(
        t,
    )[i] != entry_keys(t)[j] by {
        if i < s.len() {
            assert(entry_keys(s)[i] == entry_keys(t)[i]);
        }
        if j < s.len() {
            assert(entry_keys(s)[j] == entry_keys(t)[j]);
        }
    }
    lemma_entries_map(s);
    lemma_entries_map(t);
    assert forall|x: A| #[trigger] entries_map(t).contains_key(x) == entries_map(s).insert(
        k,
        v,
    ).contains_key(x) by {
        if entries_map(t).contains_key(x) {
            let i = choose|i: int| 0 <= i < t.len() && t[i].0 == x;
            if i < s.len() {
                assert(s[i].0 == x);
            }
        }
        if entries_map(s).contains_key(x) {
            let i = choose|i: int| 0 <= i < s.len() && s[i].0 == x;
            assert(t[i].0 == x);
        }
        if x == k {
            assert(t[s.len() as int].0 == k);
        }
    }
    assert forall|x: A| #[trigger] entries_map(t).contains_key(x) implies entries_map(t)[x]
        == entries_map(s).insert(k, v)[x] by {
        let i = choose|i: int| 0 <= i < t.len() && t[i].0 == x && t[i].1 == entries_map(t)[x];
        if i < s.len() {
            assert(s[i].0 == x);
            assert(entry_keys(s)[i] == x);
        }
    }
    assert(entries_map(t) =~= entries_map(s).insert(k, v));
}

/// Replacing the value of an entry overwrites its key in the map.
pub proof fn lemma_entries_map_update<A, B>(s: Seq<(A, B)>, i: int, v: B)
    requires
        entry_keys(s).no_duplicates(),
        0 <= i < s.len(),
    ensures
        entry_keys(s.update(i, (s[i].0, v))) == entry_keys(s),
        entries_map(s.update(i, (s[i].0, v))) == entries_map(s).insert(s[i].0, v),
{
    let k = s[i].0;
    let t = s.update(i, (k, v));
    assert(entry_keys(t) =~= entry_keys(s));
    lemma_entries_map(s);
    lemma_entries_map(t);
    assert forall|x: A| #[trigger] entries_map(t).contains_key(x) implies entries_map(t)[x]
        == entries_map(s).insert(k, v)[x] by {
        let j = choose|j: int| 0 <= j < t.len() && t[j].0 == x && t[j].1 == entries_map(t)[x];
        assert(entry_keys(s)[i] == k);
        if j != i {
            assert(s[j].0 == x);
            assert(entry_keys(s)[j] == x);
            assert(x != k);
        }
    }
    assert(s[i].0 == k);
    assert(entries_map(t) =~= entries_map(s).insert(k, v));
}

/// A map from keys to values, kept as a vector of entries with distinct keys.
#[derive(Debug)]
pub struct VecMap<K: Key, V: DeepView> {
    entries: Vec<(K, V)>,
}

impl<K: Key, V: DeepView> View for VecMap<K, V> {
    type V = Map<K::V, V::V>;

    open spec fn view(&self) -> Map<K::V, V::V> {
        entries_map(self.entries())
    }
}

impl<K: Key, V: DeepView> DeepView for VecMap<K, V> {
    type V = Map<K::V, V::V>;

    open spec fn deep_view(&self) -> Map<K::V, V::V> {
        self.view()
    }
}

impl<K: Key, V: DeepView> VecMap<K, V> {
    #[verifier::type_invariant]
    spec fn distinct_keys(self) -> bool {
        entry_keys(self.entries()).no_duplicates()
    }

    /// The entries in the order in which their keys were first inserted.
    pub closed spec fn entries(&self) -> Seq<(K::V, V::V)> {
        Seq::new(self.entries@.len(), |i: int| (self.entries@[i].0@, self.entries@[i].1.deep_view()))
    }

    pub fn new() -> (r: Self)
        ensures
            r.entries() == Seq::<(K::V, V::V)>::empty(),
            r@ == Map::<K::V, V::V>::empty(),
    {
        let r = VecMap { entries: Vec::new() };
        assert(r.entries() =~= Seq::<(K::V, V::V)>::empty());
        assert(r@ =~= Map::<K::V, V::V>::empty());
        r
    }

    /// The number of entries. Also tells a caller that the keys are distinct.
    pub fn len(&self) -> (n: usize)
        ensures
            n == self.entries().len(),
            n == self@.dom().len(),
            self@.dom().finite(),
            entry_keys(self.entries()).no_duplicates(),
    {
        proof {
            use_type_invariant(self);
            lemma_entries_map(self.entries());
        }
        self.entries.len()
    }

    pub fn is_empty(&self) -> (b: bool)
        ensures
            b == (self.entries().len() == 0),
            b == (self@ == Map::<K::V, V::V>::empty()),
    {
        proof {
            use_type_invariant(self);
            lemma_entries_map(self.entries());
            if self.entries().len() == 0 {
                assert(self@ =~= Map::<K::V, V::V>::empty());
            } else {
                assert(self@.contains_key(self.entries()[0].0));
            }
        }
        self.entries.len() == 0
    }

    /// The key of the entry at position `i`.
    pub fn key_at(&self, i: usize) -> (k: &K)
        requires
            i < self.entries().len(),
        ensures
            k@ == self.entries()[i as int].0,
    {
        &self.entries[i].0
    }

    /// The value of the entry at position `i`.
    pub fn value_at(&self, i: usize) -> (v: &V)
        requires
            i < self.entries().len(),
        ensures
            v.deep_view() == self.entries()[i as int].1,
    {
        &self.entries[i].1
    }

    /// The position of the entry with the given key.
    pub fn position(&self, key: &K) -> (r: Option<usize>)
        ensures
            entry_keys(self.entries()).no_duplicates(),
            match r {
                Some(i) => i < self.entries().len() && self.entries()[i as int].0 == key@,
                None => !entry_keys(self.entries()).contains(key@),
            },
            r is Some == self@.contains_key(key@),
    {
        proof {
            use_type_invariant(self);
            lemma_entries_map(self.entries());
        }
        let mut i: usize = 0;
        while i < self.entries.len()
            invariant
                i <= self.entries@.len(),
                self.entries@.len() == self.entries().len(),
                entry_keys(self.entries()).no_duplicates(),
                entries_map(self.entries()).dom() == entry_keys(self.entries()).to_set(),
                forall|j: int| 0 <= j < i ==> self.entries()[j].0 != key@,
            decreases self.entries@.len() - i,
        {
            if self.entries[i].0.key_eq(key) {
                proof {
                    assert(entry_keys(self.entries())[i as int] == key@);
                }
                return Some(i);
            }
            i += 1;
        }
        proof {
            let keys = entry_keys(self.entries());
            if keys.contains(key@) {
                let j = choose|j: int| 0 <= j < keys.len() && keys[j] == key@;
                assert(self.entries()[j].0 == key@);
            }
        }
        None
    }

    pub fn contains_key(&self, key: &K) -> (b: bool)
        ensures
            b == self@.contains_key(key@),
    {
        self.position(key).is_some()
    }

    pub fn get(&self, key: &K) -> (r: Option<&V>)
        ensures
            r is Some == self@.contains_key(key@),
            r matches Some(v) ==> v.deep_view() == self@[key@],
    {
        match self.position(key) {
            Some(i) => {
                proof {
                    lemma_entries_map(self.entries());
                }
                Some(&self.entries[i].1)
            },
            None => None,
        }
    }

    fn take_entries(&mut self) -> (r: Vec<(K, V)>)
        ensures
            r == old(self).entries,
            entry_keys(old(self).entries()).no_duplicates(),
    {
        proof {
            use_type_invariant(&*self);
        }
        let mut emptied = VecMap { entries: Vec::new() };
        assert(emptied.entries() =~= Seq::<(K::V, V::V)>::empty());
        core::mem::swap(self, &mut emptied);
        emptied.entries
    }

    /// Inserts or overwrites. A new key goes to the end; a key already there keeps its place.
    pub fn insert(&mut self, key: K, value: V)
        ensures
            final(self)@ == old(self)@.insert(key@, value.deep_view()),
            final(self).entries() == entries_insert(
                old(self).entries(),
                key@,
                value.deep_view(),
            ),
            entry_keys(final(self).entries()).no_duplicates(),
    {
        let found = self.position(&key);
        let ghost before = self.entries();
        let mut entries = self.take_entries();
        match found {
            Some(i) => {
                entries.set(i, (key, value));
                let ghost after = Seq::new(
                    entries@.len(),
                    |j: int| (entries@[j].0@, entries@[j].1.deep_view()),
                );
                proof {
                    let keys = entry_keys(before);
                    assert(keys[i as int] == key@);
                    assert(keys.index_of(key@) == i);
                    lemma_entries_map_update(before, i as int, value.deep_view());
                    assert(after =~= before.update(i as int, (key@, value.deep_view())));
                }
                *self = VecMap { entries };
                assert(self.entries() =~= after);
            },
            None => {
                entries.push((key, value));
                let ghost after = Seq::new(
                    entries@.len(),
                    |j: int| (entries@[j].0@, entries@[j].1.deep_view()),
                );
                proof {
                    lemma_entries_map_push(before, key@, value.deep_view());
                    assert(after =~= before.push((key@, value.deep_view())));
                }
                *self = VecMap { entries };
                assert(self.entries() =~= after);
            },
        }
    }
}

/// A set, kept as a vector of distinct elements.
#[derive(Debug)]
pub struct VecSet<K: Key> {
    items: Vec<K>,
}

impl<K: Key> View for VecSet<K> {
    type V = Set<K::V>;

    open spec fn view(&self) -> Set<K::V> {
        self.elements().to_set()
    }
}

impl<K: Key> DeepView for VecSet<K> {
    type V = Set<K::V>;

    open spec fn deep_view(&self) -> Set<K::V> {
        self.view()
    }
}

impl<K: Key> VecSet<K> {
    #[verifier::type_invariant]
    spec fn distinct(self) -> bool {
        self.elements().no_duplicates()
    }

    /// The elements in the order in which they were first inserted.
    pub closed spec fn elements(&self) -> Seq<K::V> {
        Seq::new(self.items@.len(), |i: int| self.items@[i]@)
    }

    pub fn new() -> (r: Self)
        ensures
            r.elements() == Seq::<K::V>::empty(),
            r@ == Set::<K::V>::empty(),
    {
        let r = VecSet { items: Vec::new() };
        assert(r.elements() =~= Seq::<K::V>::empty());
        assert(r@ =~= Set::<K::V>::empty());
        r
    }

    /// The number of elements. Also tells a caller that they are distinct.
    pub fn len(&self) -> (n: usize)
        ensures
            n == self.elements().len(),
            n == self@.len(),
            self@.finite(),
            self.elements().no_duplicates(),
    {
        proof {
            use_type_invariant(self);
            self.elements().unique_seq_to_set();
            vstd::seq_lib::seq_to_set_is_finite(self.elements());
        }
        self.items.len()
    }

    pub fn is_empty(&self) -> (b: bool)
        ensures
            b == (self.elements().len() == 0),
            b == (self@ == Set::<K::V>::empty()),
    {
        proof {
            if self.elements().len() == 0 {
                assert(self@ =~= Set::<K::V>::empty());
            } else {
                assert(self@.contains(self.elements()[0]));
            }
        }
        self.items.len() == 0
    }

    /// The element at position `i`.
    pub fn get(&self, i: usize) -> (k: &K)
        requires
            i < self.elements().len(),
        ensures
            k@ == self.elements()[i as int],
    {
        &self.items[i]
    }

    pub fn contains(&self, key: &K) -> (b: bool)
        ensures
            b == self@.contains(key@),
    {
        let mut i: usize = 0;
        while i < self.items.len()
            invariant
                i <= self.items@.len(),
                self.items@.len() == self.elements().len(),
                forall|j: int| 0 <= j < i ==> self.elements()[j] != key@,
            decreases self.items@.len() - i,
        {
            if self.items[i].key_eq(key) {
                assert(self.elements()[i as int] == key@);
                return true;
            }
            i += 1;
        }
        false
    }

    /// Whether every element of this set is in the other.
    pub fn is_subset_of(&self, other: &VecSet<K>) -> (b: bool)
        ensures
            b == self@.subset_of(other@),
    {
        let mut i: usize = 0;
        while i < self.items.len()
            invariant
                i <= self.items@.len(),
                self.items@.len() == self.elements().len(),
                forall|j: int| 0 <= j < i ==> other@.contains(self.elements()[j]),
            decreases self.items@.len() - i,
        {
            if !other.contains(&self.items[i]) {
                assert(self@.contains(self.elements()[i as int]));
                return false;
            }
            i += 1;
        }
        true
    }

    /// The elements as a vector, in their order.
    pub fn into_vec(self) -> (v: Vec<K>)
        ensures
            v@.len() == self.elements().len(),
            forall|i: int| 0 <= i < v@.len() ==> (#[trigger] v@[i])@ == self.elements()[i],
    {
        self.items
    }

    /// Adds an element; says whether it was new.
    pub fn insert(&mut self, key: K) -> (added: bool)
        ensures
            final(self)@ == old(self)@.insert(key@),
            added == !old(self)@.contains(key@),
            final(self).elements() == (if added {
                old(self).elements().push(key@)
            } else {
                old(self).elements()
            }),
    {
        if self.contains(&key) {
            assert(self@ =~= old(self)@.insert(key@));
            false
        } else {
            proof {
                use_type_invariant(&*self);
            }
            let ghost before = self.elements();
            let mut emptied = VecSet { items: Vec::new() };
            assert(emptied.elements() =~= Seq::<K::V>::empty());
            core::mem::swap(self, &mut emptied);
            let mut items = emptied.items;
            items.push(key);
            let ghost after = Seq::new(items@.len(), |i: int| items@[i]@);
            proof {
                assert(after =~= before.push(key@));
                assert forall|i: int, j: int|
                    0 <= i < after.len() && 0 <= j < after.len() && i != j implies after[i]
                    != after[j] by {
                    if i < before.len() {
                        assert(before[i] == after[i]);
                        assert(before.contains(before[i]));
                    }
                    if j < before.len() {
                        assert(before[j] == after[j]);
                        assert(before.contains(before[j]));
                    }
                }
                before.lemma_push_to_set_commute(key@);
            }
            *self = VecSet { items };
            assert(self.elements() =~= after);
            true
        }
    }
}

} // verus!
