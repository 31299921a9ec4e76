//! Consecutive numbers for names that have none yet.

use vstd::prelude::*;

verus! {

/// Those of `names` that `map` does not hold, in order.
pub open spec fn absent(map: Map<Seq<char>, u64>, names: Seq<Seq<char>>) -> Seq<Seq<char>> {
    names.filter(|n: Seq<char>| !map.contains_key(n))
}

/// `map` with a number for each of `names`, counted from `next`.
pub open spec fn number_all(
    map: Map<Seq<char>, u64>,
    names: Seq<Seq<char>>,
    next: nat,
) -> Map<Seq<char>, u64>
    decreases names.len(),
{
    if names.len() == 0 {
        map
    } else {
        number_all(map, names.drop_last(), next).insert(
            names.last(),
            (next + names.len() - 1) as u64,
        )
    }
}

/// What [`number_all`] adds: the names with consecutive numbers, and nothing
/// else.
pub proof fn lemma_number_all(map: Map<Seq<char>, u64>, names: Seq<Seq<char>>, next: nat)
    requires
        names.no_duplicates(),
        next + names.len() <= u64::MAX,
    ensures
        number_all(map, names, next).dom() == map.dom().union(names.to_set()),
        forall|n: Seq<char>|
            !names.contains(n) && map.contains_key(n) ==> #[trigger] number_all(map, names, next)[n]
                == map[n],
        forall|i: int|
            0 <= i < names.len() ==> number_all(map, names, next)[#[trigger] names[i]] == next + i,
    decreases names.len(),
{
    if names.len() == 0 {
        assert(number_all(map, names, next).dom() =~= map.dom().union(names.to_set()));
    } else {
        let before = names.drop_last();
        assert(before.no_duplicates());
        lemma_number_all(map, before, next);
        let r = number_all(map, names, next);
        assert forall|n: Seq<char>| names.contains(n) == (before.contains(n) || n
            == names.last()) by {
            if before.contains(n) {
                assert(names[before.index_of(n)] == n);
            }
            if names.contains(n) && n != names.last() {
                assert(before[names.index_of(n)] == n);
            }
            assert(names[names.len() - 1] == names.last());
        }
        assert(r.dom() =~= map.dom().union(names.to_set()));
        assert forall|i: int| 0 <= i < names.len() implies r[#[trigger] names[i]] == next + i by {
            if i < names.len() - 1 {
                assert(before[i] == names[i]);
                assert(names[i] != names.last());
            }
        }
    }
}

/// The absent names of a list are those of the list that the map does not
/// hold.
pub proof fn lemma_absent(map: Map<Seq<char>, u64>, names: Seq<Seq<char>>)
    requires
        names.no_duplicates(),
    ensures
        absent(map, names).no_duplicates(),
        absent(map, names).len() <= names.len(),
        forall|n: Seq<char>| #[trigger]
            absent(map, names).contains(n) == (names.contains(n) && !map.contains_key(n)),
    decreases names.len(),
{
    reveal(Seq::filter);
    if names.len() > 0 {
        let before = names.drop_last();
        let last = names.last();
        lemma_absent(map, before);
        let d = absent(map, before);
        assert(!before.contains(last)) by {
            if before.contains(last) {
                assert(names[before.index_of(last)] == names[names.len() - 1]);
            }
        }
        assert forall|n: Seq<char>| #[trigger] absent(map, names).contains(n) == (names.contains(n)
            && !map.contains_key(n)) by {
            assert(d.contains(n) == (before.contains(n) && !map.contains_key(n)));
            if before.contains(n) {
                assert(names[before.index_of(n)] == n);
            }
            if names.contains(n) && n != last {
                assert(before[names.index_of(n)] == n);
            }
            assert(names[names.len() - 1] == last);
            if d.contains(n) {
                assert(d.push(last)[d.index_of(n)] == n);
            }
            assert(d.push(last)[d.len() as int] == last);
        }
        if !map.contains_key(last) {
            assert(!d.contains(last));
            assert forall|i: int| 0 <= i < d.len() implies d[i] != last by {
                if d[i] == last {
                    assert(d.contains(last));
                }
            }
        }
    }
}

/// A list has no fewer absent names than any of its prefixes, and those of the
/// next longer prefix are known from its last name.
pub proof fn lemma_absent_prefix(map: Map<Seq<char>, u64>, names: Seq<Seq<char>>, i: int)
    requires
        0 <= i <= names.len(),
    ensures
        absent(map, names.take(i)).len() <= absent(map, names).len(),
        absent(map, names.take(i)).len() <= i,
        i < names.len() ==> absent(map, names.take(i + 1)) == (if map.contains_key(names[i]) {
            absent(map, names.take(i))
        } else {
            absent(map, names.take(i)).push(names[i])
        }),
    decreases names.len() - i,
{
    reveal(Seq::filter);
    if i < names.len() {
        assert(names.take(i + 1).drop_last() =~= names.take(i));
        assert(names.take(i + 1).last() == names[i]);
        lemma_absent_prefix(map, names, i + 1);
    } else {
        assert(names.take(i) =~= names);
        lemma_absent_len(map, names);
    }
    lemma_absent_len(map, names.take(i));
}

/// No more names are absent than there are.
proof fn lemma_absent_len(map: Map<Seq<char>, u64>, names: Seq<Seq<char>>)
    ensures
        absent(map, names).len() <= names.len(),
    decreases names.len(),
{
    reveal(Seq::filter);
    if names.len() > 0 {
        lemma_absent_len(map, names.drop_last());
    }
}

} // verus!
