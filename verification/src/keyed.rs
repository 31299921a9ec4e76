//! Insertion-ordered sets and maps over keys that are compared by view.

use vstd::prelude::*;

verus! {

/// A value that can be compared with another one, and copied, as far as its
/// view goes.
pub trait Key: View + Sized {
    /// Whether the two keys are the same key.
    fn same(&self, other: &Self) -> (r: bool)
        ensures
            r == (self@ == other@),
    ;

    /// A second copy of the key.
    fn duplicate(&self) -> (r: Self)
        ensures
            r@ == self@,
    ;
}

impl Key for String {
    fn same(&self, other: &Self) -> (r: bool) {
        self.eq(other)
    }

    fn duplicate(&self) -> (r: Self) {
        self.clone()
    }
}

/// The views of a sequence's elements, in order.
pub open spec fn views<K: View>(s: Seq<K>) -> Seq<K::V> {
    Seq::new(s.len(), |i: int| s[i]@)
}

/// `order` lists the members of `set`, each once.
pub open spec fn lists<A>(order: Seq<A>, set: Set<A>) -> bool {
    order.no_duplicates() && order.to_set() == set
}

/// One more element of a prefix.
pub proof fn lemma_take_push<A>(s: Seq<A>, i: int)
    requires
        0 <= i < s.len(),
    ensures
        forall|x: A| #[trigger] s.take(i + 1).contains(x) == (s.take(i).contains(x) || x == s[i]),
        s.take(i + 1).to_set() == s.take(i).to_set().insert(s[i]),
        s.no_duplicates() ==> !s.take(i).contains(s[i]),
{
    let p = s.take(i);
    let q = s.take(i + 1);
    assert(q =~= p.push(s[i]));
    assert forall|x: A| #[trigger] q.contains(x) == (p.contains(x) || x == s[i]) by {
        if p.contains(x) {
            assert(q[p.index_of(x)] == x);
        }
        assert(q[i] == s[i]);
        if q.contains(x) && x != s[i] {
            assert(p[q.index_of(x)] == x);
        }
    }
    assert(q.to_set() =~= p.to_set().insert(s[i]));
    if s.no_duplicates() && p.contains(s[i]) {
        assert(s[p.index_of(s[i])] == s[i]);
    }
}

/// A set that keeps its members in the order in which they were first added.
pub struct KeySet<K: Key> {
    items: Vec<K>,
}

impl<K: Key> View for KeySet<K> {
    type V = Set<K::V>;

    open spec fn view(&self) -> Set<K::V> {
        self.listed().to_set()
    }
}

impl<K: Key> KeySet<K> {
    /// The members in the order in which they were added.
    pub closed spec fn listed(&self) -> Seq<K::V> {
        views(self.items@)
    }

    /// No member is listed twice.
    pub open spec fn wf(&self) -> bool {
        self.listed().no_duplicates()
    }

    /// The empty set.
    pub fn new() -> (r: Self)
        ensures
            r.wf(),
            r.listed() == Seq::<K::V>::empty(),
            r@ == Set::<K::V>::empty(),
    {
        let r = KeySet { items: Vec::new() };
        proof {
            assert(r.listed() =~= Seq::<K::V>::empty());
            assert(r@ =~= Set::<K::V>::empty());
        }
        r
    }

    /// The number of members.
    pub fn len(&self) -> (r: usize)
        requires
            self.wf(),
        ensures
            r == self.listed().len(),
            self@.finite(),
            r == self@.len(),
    {
        proof {
            self.listed().unique_seq_to_set();
            vstd::seq_lib::seq_to_set_is_finite(self.listed());
        }
        self.items.len()
    }

    /// The number of places in the listing.
    pub fn count(&self) -> (r: usize)
        ensures
            r == self.listed().len(),
    {
        self.items.len()
    }

    /// The member at position `i` of the listing.
    pub fn at(&self, i: usize) -> (r: &K)
        requires
            i < self.listed().len(),
        ensures
            r@ == self.listed()[i as int],
            self@.contains(r@),
    {
        proof {
            assert(self.listed()[i as int] == self.items@[i as int]@);
            assert(self.listed().contains(self.listed()[i as int]));
        }
        &self.items[i]
    }

    /// Whether `key` is a member.
    pub fn contains(&self, key: &K) -> (r: bool)
        ensures
            r == self@.contains(key@),
    {
        let mut i: usize = 0;
        while i < self.items.len()
            invariant
                i <= self.items@.len(),
                forall|j: int| 0 <= j < i ==> #[trigger] self.listed()[j] != key@,
            decreases self.items@.len() - i,
        {
            assert(self.listed()[i as int] == self.items@[i as int]@);
            if self.items[i].same(key) {
                assert(self.listed().contains(key@));
                return true;
            }
            i = i + 1;
        }
        false
    }

    /// Adds `key` at the end of the listing unless it is already a member.
    /// Returns whether it was added.
    pub fn insert(&mut self, key: K) -> (r: bool)
        requires
            old(self).wf(),
        ensures
            final(self).wf(),
            r == !old(self)@.contains(key@),
            final(self).listed() == (if r {
                old(self).listed().push(key@)
            } else {
                old(self).listed()
            }),
            final(self)@ == old(self)@.insert(key@),
    {
        let ghost before = self.listed();
        if self.contains(&key) {
            proof {
                assert(self@ =~= self@.insert(key@));
            }
            return false;
        }
        let ghost k = key@;
        self.items.push(key);
        proof {
            let after = self.listed();
            assert(after =~= before.push(k));
            assert forall|x: K::V| after.to_set().contains(x) == before.to_set().insert(
                k,
            ).contains(x) by {
                if before.contains(x) {
                    let i = before.index_of(x);
                    assert(after[i] == x);
                }
                if x == k {
                    assert(after[before.len() as int] == x);
                }
            }
            assert(after.to_set() =~= before.to_set().insert(k));
            assert(after.no_duplicates()) by {
                assert forall|i: int| 0 <= i < before.len() implies before[i] != k by {
                    if before[i] == k {
                        assert(before.contains(k));
                    }
                }
            }
        }
        true
    }

    /// Takes `key` out of the set. Returns whether it was a member.
    pub fn remove(&mut self, key: &K) -> (r: bool)
        requires
            old(self).wf(),
        ensures
            final(self).wf(),
            r == old(self)@.contains(key@),
            final(self)@ == old(self)@.remove(key@),
            r ==> exists|i: int|
                0 <= i < old(self).listed().len() && old(self).listed()[i] == key@
                    && final(self).listed() == #[trigger] old(self).listed().remove(i),
            !r ==> final(self).listed() == old(self).listed(),
    {
        let ghost before = self.listed();
        let mut i: usize = 0;
        while i < self.items.len()
            invariant
                i <= self.items@.len(),
                *self == *old(self),
                before == old(self).listed(),
                old(self).wf(),
                forall|j: int| 0 <= j < i ==> #[trigger] self.listed()[j] != key@,
            decreases self.items@.len() - i,
        {
            assert(self.listed()[i as int] == self.items@[i as int]@);
            if self.items[i].same(key) {
                let _gone = self.items.remove(i);
                proof {
                    lemma_remove_unique(before, i as int);
                    assert(self.listed() =~= before.remove(i as int));
                    assert(before.contains(key@));
                }
                return true;
            }
            i = i + 1;
        }
        proof {
            assert(!before.contains(key@));
            assert(self@ =~= self@.remove(key@));
        }
        false
    }

    /// A second copy of the set, with the same listing.
    pub fn duplicate(&self) -> (r: Self)
        ensures
            r.listed() == self.listed(),
            r@ == self@,
            r.wf() == self.wf(),
    {
        let mut items: Vec<K> = Vec::new();
        let mut i: usize = 0;
        while i < self.items.len()
            invariant
                i <= self.items@.len(),
                items@.len() == i,
                forall|j: int| 0 <= j < i ==> (#[trigger] items@[j])@ == self.items@[j]@,
            decreases self.items@.len() - i,
        {
            items.push(self.items[i].duplicate());
            i = i + 1;
        }
        let r = KeySet { items };
        assert(r.listed() =~= self.listed());
        r
    }
}

/// Taking one element out of a sequence without repetitions takes exactly that
/// element out of the set it spells.
pub proof fn lemma_remove_unique<A>(s: Seq<A>, i: int)
    requires
        s.no_duplicates(),
        0 <= i < s.len(),
    ensures
        s.remove(i).no_duplicates(),
        s.remove(i).to_set() == s.to_set().remove(s[i]),
        forall|x: A| s.remove(i).contains(x) == (s.contains(x) && x != s[i]),
{
    let t = s.remove(i);
    assert(forall|j: int| 0 <= j < t.len() ==> #[trigger] t[j] == (if j < i {
        s[j]
    } else {
        s[j + 1]
    }));
    assert forall|x: A| t.contains(x) == (s.contains(x) && x != s[i]) by {
        if t.contains(x) {
            let j = t.index_of(x);
            assert(s[if j < i {
                j
            } else {
                j + 1
            }] == x);
        }
        if s.contains(x) && x != s[i] {
            let j = s.index_of(x);
            assert(t[if j < i {
                j
            } else {
                j - 1
            }] == x);
        }
    }
    assert(t.to_set() =~= s.to_set().remove(s[i]));
}

/// A map that keeps its entries in a list, one entry per key.
pub struct KeyMap<K: Key, T> {
    entries: Vec<(K, T)>,
}

impl<K: Key, T> View for KeyMap<K, T> {
    type V = Map<K::V, T>;

    closed spec fn view(&self) -> Map<K::V, T> {
        Map::new(
            |k: K::V| self.listed().contains(k),
            |k: K::V| self.entries@[self.listed().index_of(k)].1,
        )
    }
}

impl<K: Key, T> KeyMap<K, T> {
    /// The keys in the order of the list.
    pub closed spec fn listed(&self) -> Seq<K::V> {
        Seq::new(self.entries@.len(), |i: int| self.entries@[i].0@)
    }

    /// No key is listed twice, and the listed keys are those of the map.
    pub open spec fn wf(&self) -> bool {
        &&& self.listed().no_duplicates()
        &&& self@.dom() == self.listed().to_set()
    }

    proof fn lemma_entry(&self, i: int)
        requires
            self.listed().no_duplicates(),
            0 <= i < self.entries@.len(),
        ensures
            self@.contains_key(self.entries@[i].0@),
            self@[self.entries@[i].0@] == self.entries@[i].1,
            self.listed()[i] == self.entries@[i].0@,
    {
        let k = self.entries@[i].0@;
        assert(self.listed()[i] == k);
        assert(self.listed().contains(k));
        let j = self.listed().index_of(k);
        assert(j == i);
    }

    /// The empty map.
    pub fn new() -> (r: Self)
        ensures
            r.wf(),
            r.listed() == Seq::<K::V>::empty(),
            r@ == Map::<K::V, T>::empty(),
    {
        let r = KeyMap { entries: Vec::new() };
        proof {
            assert(r.listed() =~= Seq::<K::V>::empty());
            assert(r@ =~= Map::<K::V, T>::empty());
            assert(r@.dom() =~= r.listed().to_set());
        }
        r
    }

    /// The number of entries.
    pub fn len(&self) -> (r: usize)
        requires
            self.wf(),
        ensures
            r == self.listed().len(),
            self@.dom().finite(),
            r == self@.len(),
    {
        proof {
            self.listed().unique_seq_to_set();
            vstd::seq_lib::seq_to_set_is_finite(self.listed());
        }
        self.entries.len()
    }

    /// The entry at position `i` of the list.
    pub fn at(&self, i: usize) -> (r: (&K, &T))
        requires
            self.wf(),
            i < self.listed().len(),
        ensures
            r.0@ == self.listed()[i as int],
            self@.contains_key(r.0@),
            *r.1 == self@[r.0@],
    {
        proof {
            self.lemma_entry(i as int);
        }
        (&self.entries[i].0, &self.entries[i].1)
    }

    fn position(&self, key: &K) -> (r: Option<usize>)
        requires
            self.listed().no_duplicates(),
        ensures
            match r {
                Some(i) => i < self.entries@.len() && self.entries@[i as int].0@ == key@
                    && self@.contains_key(key@) && self@[key@] == self.entries@[i as int].1,
                None => !self@.contains_key(key@) && !self.listed().contains(key@),
            },
    {
        let mut i: usize = 0;
        while i < self.entries.len()
            invariant
                i <= self.entries@.len(),
                self.listed().no_duplicates(),
                forall|j: int| 0 <= j < i ==> #[trigger] self.listed()[j] != key@,
            decreases self.entries@.len() - i,
        {
            assert(self.listed()[i as int] == self.entries@[i as int].0@);
            if self.entries[i].0.same(key) {
                proof {
                    self.lemma_entry(i as int);
                }
                return Some(i);
            }
            i = i + 1;
        }
        None
    }

    /// The value stored under `key`.
    pub fn get(&self, key: &K) -> (r: Option<&T>)
        requires
            self.wf(),
        ensures
            match r {
                Some(v) => self@.contains_key(key@) && *v == self@[key@],
                None => !self@.contains_key(key@),
            },
    {
        match self.position(key) {
            Some(i) => Some(&self.entries[i].1),
            None => None,
        }
    }

    /// Whether there is an entry for `key`.
    pub fn contains_key(&self, key: &K) -> (r: bool)
        requires
            self.wf(),
        ensures
            r == self@.contains_key(key@),
    {
        self.position(key).is_some()
    }

    /// Stores `value` under `key`, in place of what was stored there before.
    pub fn insert(&mut self, key: K, value: T)
        requires
            old(self).wf(),
        ensures
            final(self).wf(),
            final(self)@ == old(self)@.insert(key@, value),
    {
        let _replaced = self.remove(&key);
        let ghost before = *self;
        let ghost k = key@;
        self.entries.push((key, value));
        proof {
            let after = *self;
            assert(after.listed() =~= before.listed().push(k));
            assert(!before.listed().contains(k)) by {
                assert(!before@.dom().contains(k));
            }
            assert(after.listed().no_duplicates()) by {
                assert forall|i: int| 0 <= i < before.listed().len() implies before.listed()[i]
                    != k by {
                    if before.listed()[i] == k {
                        assert(before.listed().contains(k));
                    }
                }
            }
            after.lemma_entry(before.entries@.len() as int);
            assert forall|x: K::V| x != k implies #[trigger] after@.contains_key(x)
                == before@.contains_key(x)
                && (before@.contains_key(x) ==> after@[x] == before@[x]) by {
                if before.listed().contains(x) {
                    let i = before.listed().index_of(x);
                    before.lemma_entry(i);
                    after.lemma_entry(i);
                }
                if after.listed().contains(x) {
                    let i = after.listed().index_of(x);
                    assert(before.listed()[i] == x);
                }
            }
            assert forall|x: K::V| #[trigger] after@.dom().contains(x) == before@.insert(
                k,
                value,
            ).dom().contains(x) by {
                assert(after@.contains_key(x) == after@.dom().contains(x));
            }
            assert(after@ =~= old(self)@.insert(k, value));
            assert(after@.dom() =~= after.listed().to_set());
        }
    }

    /// Takes the entry for `key` out of the map and returns its value.
    pub fn remove(&mut self, key: &K) -> (r: Option<T>)
        requires
            old(self).wf(),
        ensures
            final(self).wf(),
            final(self)@ == old(self)@.remove(key@),
            match r {
                Some(v) => old(self)@.contains_key(key@) && v == old(self)@[key@],
                None => !old(self)@.contains_key(key@),
            },
    {
        match self.position(key) {
            None => {
                assert(self@ =~= self@.remove(key@));
                None
            },
            Some(i) => {
                let ghost before = *self;
                let (_key, value) = self.entries.remove(i);
                proof {
                    let after = *self;
                    assert(before.listed()[i as int] == key@);
                    lemma_remove_unique(before.listed(), i as int);
                    assert(after.listed() =~= before.listed().remove(i as int));
                    assert forall|x: K::V| after@.contains_key(x) implies before@.contains_key(x)
                        && after@[x] == before@[x] by {
                        let j = after.listed().index_of(x);
                        after.lemma_entry(j);
                        before.lemma_entry(
                            if j < i {
                                j
                            } else {
                                j + 1
                            },
                        );
                    }
                    assert(after@.dom() =~= after.listed().to_set());
                    assert(after@ =~= before@.remove(key@));
                }
                Some(value)
            },
        }
    }

    /// Takes the entries for all of `keys` out of the map.
    pub fn remove_all(&mut self, keys: &KeySet<K>)
        requires
            old(self).wf(),
        ensures
            final(self).wf(),
            final(self)@ == old(self)@.remove_keys(keys@),
    {
        let mut i: usize = 0;
        proof {
            assert(self@ =~= old(self)@.remove_keys(keys.listed().take(0).to_set()));
        }
        while i < keys.items.len()
            invariant
                i <= keys.items@.len(),
                keys.listed().len() == keys.items@.len(),
                self.wf(),
                self@ == old(self)@.remove_keys(keys.listed().take(i as int).to_set()),
            decreases keys.items@.len() - i,
        {
            let ghost before = keys.listed().take(i as int);
            let _gone = self.remove(&keys.items[i]);
            proof {
                let k = keys.listed()[i as int];
                assert(k == keys.items@[i as int]@);
                let after = keys.listed().take(i + 1);
                assert(after =~= before.push(k));
                assert forall|x: K::V| after.contains(x) == (before.contains(x) || x == k) by {
                    if before.contains(x) {
                        assert(after[before.index_of(x)] == x);
                    }
                    assert(after[i as int] == k);
                }
                assert(self@ =~= old(self)@.remove_keys(after.to_set()));
            }
            i = i + 1;
        }
        assert(keys.listed().take(i as int) =~= keys.listed());
    }
}

} // verus!
