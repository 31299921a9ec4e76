//! The keyed registry of resource watches, held in a
//! [`tokio_stream::StreamMap`].
//!
//! A watch stands in the map as its number; the stream of events behind that
//! number belongs to the task that polls it.

use crate::keyed::{views, KeySet};
use tokio_stream::StreamMap;
use vstd::prelude::*;

verus! {

/// The type of [`tokio_stream::StreamMap`], opaque here.
#[verifier::external_type_specification]
#[verifier::external_body]
#[verifier::reject_recursive_types(K)]
#[verifier::reject_recursive_types(V)]
pub struct ExStreamMap<K, V>(StreamMap<K, V>);

/// The key-value pairs that a stream map holds, in the order in which it walks
/// them.
pub uninterp spec fn stream_entries(map: StreamMap<String, u64>) -> Seq<(Seq<char>, u64)>;

/// The keys of a list of pairs.
pub open spec fn keys_of(entries: Seq<(Seq<char>, u64)>) -> Seq<Seq<char>> {
    Seq::new(entries.len(), |i: int| entries[i].0)
}

/// `after` is `before` once the first pair under `key` has left and the last
/// pair has moved to its place; `gone` is the value that left.
pub open spec fn removal(
    before: Seq<(Seq<char>, u64)>,
    key: Seq<char>,
    gone: Option<u64>,
    after: Seq<(Seq<char>, u64)>,
) -> bool {
    match gone {
        None => after == before && forall|i: int| 0 <= i < before.len() ==> before[i].0 != key,
        Some(value) => exists|i: int|
            {
                &&& 0 <= i < before.len()
                &&& #[trigger] before[i] == (key, value)
                &&& forall|j: int| 0 <= j < i ==> before[j].0 != key
                &&& after == before.update(i, before.last()).drop_last()
            },
    }
}

/// [`StreamMap::new`]: a stream map without entries.
#[verifier::external_body]
fn stream_map_new() -> (r: StreamMap<String, u64>)
    ensures
        stream_entries(r) == Seq::<(Seq<char>, u64)>::empty(),
{
    StreamMap::new()
}

/// [`StreamMap::remove`]: takes out the first entry under `key`, fills its
/// place with the last entry, and returns the value that was stored. Without
/// such an entry nothing changes.
#[verifier::external_body]
fn stream_map_remove(map: &mut StreamMap<String, u64>, key: &String) -> (r: Option<u64>)
    ensures
        removal(stream_entries(*old(map)), key@, r, stream_entries(*final(map))),
{
    map.remove(key)
}

/// [`StreamMap::insert`]: removes the entry under `key` as
/// [`StreamMap::remove`] does and appends the new pair. Returns the value that
/// was stored before.
#[verifier::external_body]
fn stream_map_insert(map: &mut StreamMap<String, u64>, key: String, value: u64) -> (r: Option<u64>)
    ensures
        exists|rest: Seq<(Seq<char>, u64)>| #[trigger]
            removal(stream_entries(*old(map)), key@, r, rest) && stream_entries(*final(map))
                == rest.push((key@, value)),
{
    map.insert(key, value)
}

/// [`StreamMap::contains_key`]: whether some entry stands under `key`.
#[verifier::external_body]
fn stream_map_contains_key(map: &StreamMap<String, u64>, key: &str) -> (r: bool)
    ensures
        r == keys_of(stream_entries(*map)).contains(key@),
{
    map.contains_key(key)
}

/// [`StreamMap::keys`]: the keys of the entries, in the order of the entries.
#[verifier::external_body]
fn stream_map_keys(map: &StreamMap<String, u64>) -> (r: Vec<String>)
    ensures
        views(r@) == keys_of(stream_entries(*map)),
{
    map.keys().cloned().collect()
}

/// [`StreamMap::len`]: the number of entries.
#[verifier::external_body]
fn stream_map_len(map: &StreamMap<String, u64>) -> (r: usize)
    ensures
        r == stream_entries(*map).len(),
{
    map.len()
}

/// [`StreamMap::is_empty`]: whether there are no entries.
#[verifier::external_body]
fn stream_map_is_empty(map: &StreamMap<String, u64>) -> (r: bool)
    ensures
        r == (stream_entries(*map).len() == 0),
{
    map.is_empty()
}

/// Resource watches by the name they are kept under, one watch per name.
pub struct WatcherMap {
    streams: StreamMap<String, u64>,
}

/// The map that a list of pairs spells.
spec fn map_of(entries: Seq<(Seq<char>, u64)>) -> Map<Seq<char>, u64> {
    Map::new(
        |k: Seq<char>| keys_of(entries).contains(k),
        |k: Seq<char>| entries[keys_of(entries).index_of(k)].1,
    )
}

proof fn lemma_pair(entries: Seq<(Seq<char>, u64)>, i: int)
    requires
        keys_of(entries).no_duplicates(),
        0 <= i < entries.len(),
    ensures
        map_of(entries).contains_key(entries[i].0),
        map_of(entries)[entries[i].0] == entries[i].1,
{
    assert(keys_of(entries)[i] == entries[i].0);
    assert(keys_of(entries).contains(entries[i].0));
    assert(keys_of(entries).index_of(entries[i].0) == i);
}

proof fn lemma_removal(
    before: Seq<(Seq<char>, u64)>,
    key: Seq<char>,
    gone: Option<u64>,
    after: Seq<(Seq<char>, u64)>,
)
    requires
        keys_of(before).no_duplicates(),
        removal(before, key, gone, after),
    ensures
        keys_of(after).no_duplicates(),
        map_of(after) == map_of(before).remove(key),
        gone == (if map_of(before).contains_key(key) {
            Some(map_of(before)[key])
        } else {
            None
        }),
{
    match gone {
        None => {
            assert(!keys_of(before).contains(key));
            assert(map_of(after) =~= map_of(before).remove(key));
        },
        Some(value) => {
            let i = choose|i: int|
                {
                    &&& 0 <= i < before.len()
                    &&& #[trigger] before[i] == (key, value)
                    &&& forall|j: int| 0 <= j < i ==> before[j].0 != key
                    &&& after == before.update(i, before.last()).drop_last()
                };
            lemma_pair(before, i);
            let n = before.len() - 1;
            assert(forall|j: int|
                0 <= j < n ==> #[trigger] after[j] == (if j == i {
                    before[n]
                } else {
                    before[j]
                }));
            assert forall|a: int, b: int| 0 <= a < n && 0 <= b < n && a != b implies keys_of(
                after,
            )[a] != keys_of(after)[b] by {
                let a1 = if a == i {
                    n
                } else {
                    a
                };
                let b1 = if b == i {
                    n
                } else {
                    b
                };
                assert(keys_of(before)[a1] != keys_of(before)[b1]);
            }
            assert forall|k: Seq<char>| #[trigger] map_of(after).dom().contains(k) == map_of(
                before,
            ).remove(key).dom().contains(k) by {
                if keys_of(after).contains(k) {
                    let j = keys_of(after).index_of(k);
                    let j1 = if j == i {
                        n
                    } else {
                        j
                    };
                    assert(keys_of(before)[j1] == k);
                    assert(keys_of(before)[i] == key);
                }
                if keys_of(before).contains(k) && k != key {
                    let j = keys_of(before).index_of(k);
                    assert(j != i);
                    let j1 = if j == n {
                        i
                    } else {
                        j
                    };
                    assert(keys_of(after)[j1] == k);
                }
            }
            assert forall|k: Seq<char>| #[trigger] map_of(after).dom().contains(k) implies map_of(
                after,
            )[k] == map_of(before)[k] by {
                let j = keys_of(after).index_of(k);
                lemma_pair(after, j);
                let j1 = if j == i {
                    n
                } else {
                    j
                };
                lemma_pair(before, j1);
            }
            assert(map_of(after) =~= map_of(before).remove(key));
        },
    }
}

proof fn lemma_append(entries: Seq<(Seq<char>, u64)>, key: Seq<char>, value: u64)
    requires
        keys_of(entries).no_duplicates(),
        !map_of(entries).contains_key(key),
    ensures
        keys_of(entries.push((key, value))).no_duplicates(),
        map_of(entries.push((key, value))) == map_of(entries).insert(key, value),
{
    let after = entries.push((key, value));
    assert(!keys_of(entries).contains(key)) by {
        assert(!map_of(entries).dom().contains(key));
    }
    assert(keys_of(after) =~= keys_of(entries).push(key));
    assert(keys_of(after).no_duplicates()) by {
        assert forall|i: int| 0 <= i < entries.len() implies keys_of(entries)[i] != key by {
            if keys_of(entries)[i] == key {
                assert(keys_of(entries).contains(key));
            }
        }
    }
    lemma_pair(after, entries.len() as int);
    assert forall|k: Seq<char>| #[trigger] map_of(after).dom().contains(k) == map_of(
        entries,
    ).insert(key, value).dom().contains(k) by {
        if keys_of(entries).contains(k) {
            assert(keys_of(after)[keys_of(entries).index_of(k)] == k);
        }
        if keys_of(after).contains(k) && k != key {
            assert(keys_of(entries)[keys_of(after).index_of(k)] == k);
        }
    }
    assert forall|k: Seq<char>| k != key && #[trigger] map_of(after).dom().contains(
        k,
    ) implies map_of(after)[k] == map_of(entries)[k] by {
        let j = keys_of(after).index_of(k);
        lemma_pair(after, j);
        lemma_pair(entries, j);
    }
    assert(map_of(after) =~= map_of(entries).insert(key, value));
}

impl View for WatcherMap {
    type V = Map<Seq<char>, u64>;

    closed spec fn view(&self) -> Map<Seq<char>, u64> {
        map_of(stream_entries(self.streams))
    }
}

impl WatcherMap {
    /// No name has two watches.
    pub closed spec fn wf(&self) -> bool {
        keys_of(stream_entries(self.streams)).no_duplicates()
    }

    /// No watches.
    pub fn new() -> (r: Self)
        ensures
            r.wf(),
            r@ == Map::<Seq<char>, u64>::empty(),
    {
        let r = WatcherMap { streams: stream_map_new() };
        assert(r@ =~= Map::<Seq<char>, u64>::empty());
        r
    }

    /// Keeps `watch` under `name`. Returns the watch that it replaces.
    pub fn insert(&mut self, name: String, watch: u64) -> (r: Option<u64>)
        requires
            old(self).wf(),
        ensures
            final(self).wf(),
            final(self)@ == old(self)@.insert(name@, watch),
            r == (if old(self)@.contains_key(name@) {
                Some(old(self)@[name@])
            } else {
                None
            }),
    {
        let ghost before = stream_entries(self.streams);
        let ghost key = name@;
        let r = stream_map_insert(&mut self.streams, name, watch);
        proof {
            let rest = choose|rest: Seq<(Seq<char>, u64)>| #[trigger]
                removal(before, key, r, rest) && stream_entries(self.streams) == rest.push(
                    (key, watch),
                );
            lemma_removal(before, key, r, rest);
            lemma_append(rest, key, watch);
            assert(self@ =~= old(self)@.insert(key, watch));
        }
        r
    }

    /// Drops the watch under `name` and returns it.
    pub fn remove(&mut self, name: &String) -> (r: Option<u64>)
        requires
            old(self).wf(),
        ensures
            final(self).wf(),
            final(self)@ == old(self)@.remove(name@),
            r == (if old(self)@.contains_key(name@) {
                Some(old(self)@[name@])
            } else {
                None
            }),
    {
        let ghost before = stream_entries(self.streams);
        let r = stream_map_remove(&mut self.streams, name);
        proof {
            lemma_removal(before, name@, r, stream_entries(self.streams));
        }
        r
    }

    /// Whether a watch is kept under `name`.
    pub fn contains_key(&self, name: &str) -> (r: bool)
        ensures
            r == self@.contains_key(name@),
    {
        stream_map_contains_key(&self.streams, name)
    }

    /// The number of watches.
    pub fn len(&self) -> (r: usize)
        requires
            self.wf(),
        ensures
            self@.dom().finite(),
            r == self@.len(),
    {
        proof {
            let keys = keys_of(stream_entries(self.streams));
            keys.unique_seq_to_set();
            vstd::seq_lib::seq_to_set_is_finite(keys);
            assert(self@.dom() =~= keys.to_set());
        }
        stream_map_len(&self.streams)
    }

    /// Whether there are no watches.
    pub fn is_empty(&self) -> (r: bool)
        ensures
            r == (self@.dom() == Set::<Seq<char>>::empty()),
    {
        proof {
            let keys = keys_of(stream_entries(self.streams));
            assert(self@.dom() =~= keys.to_set());
            if keys.len() > 0 {
                assert(keys.contains(keys[0]));
                assert(self@.dom().contains(keys[0]));
            } else {
                assert(self@.dom() =~= Set::<Seq<char>>::empty());
            }
        }
        stream_map_is_empty(&self.streams)
    }

    /// The names under which watches are kept.
    pub fn names(&self) -> (r: KeySet<String>)
        requires
            self.wf(),
        ensures
            r.wf(),
            r@ == self@.dom(),
    {
        let keys = stream_map_keys(&self.streams);
        let ghost listed = keys_of(stream_entries(self.streams));
        assert(views(keys@) =~= listed);
        let mut r: KeySet<String> = KeySet::new();
        let mut i: usize = 0;
        while i < keys.len()
            invariant
                i <= keys@.len(),
                views(keys@) == listed,
                r.wf(),
                forall|k: Seq<char>| #[trigger] r@.contains(k) == listed.take(i as int).contains(k),
            decreases keys@.len() - i,
        {
            let key = keys[i].clone();
            let _added = r.insert(key);
            proof {
                let k = keys@[i as int]@;
                assert(listed[i as int] == k);
                let before = listed.take(i as int);
                let after = listed.take(i + 1);
                assert(after =~= before.push(k));
                assert forall|x: Seq<char>| #[trigger] r@.contains(x) == after.contains(x) by {
                    if before.contains(x) {
                        assert(after[before.index_of(x)] == x);
                    }
                    assert(after[i as int] == k);
                }
            }
            i = i + 1;
        }
        proof {
            assert(listed.take(i as int) =~= listed);
            assert(r@ =~= self@.dom());
        }
        r
    }
}

} // verus!
