//! The clients of the clusters, held in a [`dashmap::DashMap`].
//!
//! A client stands in the registry as its number; the channel behind that
//! number belongs to whoever sends requests on it.

use crate::keyed::{views, KeySet};
use crate::numbering::{
    absent, lemma_absent, lemma_absent_prefix, lemma_number_all, number_all,
};
use dashmap::DashMap;
use vstd::prelude::*;

verus! {

/// The type of [`dashmap::DashMap`], opaque here.
#[verifier::external_type_specification]
#[verifier::external_body]
#[verifier::reject_recursive_types(K)]
#[verifier::reject_recursive_types(V)]
#[verifier::reject_recursive_types(S)]
pub struct ExDashMap<K, V, S>(DashMap<K, V, S>);

/// The keys and values that a map holds.
pub uninterp spec fn dash_contents(map: DashMap<String, u64>) -> Map<Seq<char>, u64>;

/// [`DashMap::new`]: a map without entries.
#[verifier::external_body]
fn dash_new() -> (r: DashMap<String, u64>)
    ensures
        dash_contents(r) == (Map::<Seq<char>, u64>::empty()),
{
    DashMap::new()
}

/// [`DashMap::get`]: the value stored under `key`, if there is one.
#[verifier::external_body]
fn dash_get(map: &DashMap<String, u64>, key: &str) -> (r: Option<u64>)
    ensures
        r == (if dash_contents(*map).contains_key(key@) {
            Some(dash_contents(*map)[key@])
        } else {
            None
        }),
{
    map.get(key).map(|entry| *entry.value())
}

/// [`DashMap::entry`] and `or_insert`: stores `value` under `key` unless
/// something is stored there, and returns what is stored afterwards.
///
/// The outside call takes a shared reference; it is made through an exclusive
/// one here, so that no one else can change the map meanwhile.
#[verifier::external_body]
fn dash_or_insert(map: &mut DashMap<String, u64>, key: String, value: u64) -> (r: u64)
    ensures
        dash_contents(*final(map)) == (if dash_contents(*old(map)).contains_key(key@) {
            dash_contents(*old(map))
        } else {
            dash_contents(*old(map)).insert(key@, value)
        }),
        r == dash_contents(*final(map))[key@],
{
    *map.entry(key).or_insert(value).value()
}

/// [`DashMap::retain`]: drops every entry whose key is not in `keep`; the
/// others stay as they are.
///
/// The outside call takes a shared reference; it is made through an exclusive
/// one here, so that no one else can change the map meanwhile.
#[verifier::external_body]
fn dash_retain(map: &mut DashMap<String, u64>, keep: &KeySet<String>)
    ensures
        dash_contents(*final(map)) == dash_contents(*old(map)).restrict(keep@),
{
    map.retain(|name, _| keep.contains(name))
}

/// A cluster's client: the cluster's name, and the number by which the channel
/// to it is found.
///
/// Two clients of the same cluster are told apart by their numbers.
#[derive(Debug, PartialEq, Eq)]
pub struct ClusterClient {
    name: String,
    id: u64,
}

impl View for ClusterClient {
    type V = (Seq<char>, u64);

    closed spec fn view(&self) -> (Seq<char>, u64) {
        (self.name@, self.id)
    }
}

impl ClusterClient {
    /// The client numbered `id` of the cluster `name`.
    pub fn new(name: String, id: u64) -> (r: Self)
        ensures
            r@ == (name@, id),
    {
        ClusterClient { name, id }
    }

    /// The name of the cluster.
    pub fn name(&self) -> (r: &str)
        ensures
            r@ == self@.0,
    {
        self.name.as_str()
    }

    /// The number of the channel that reaches the cluster.
    pub fn channel(&self) -> (r: u64)
        ensures
            r == self@.1,
    {
        self.id
    }
}

/// What a [`ClusterClientRegistry`] stands for.
pub struct RegistryView {
    /// The client of each cluster.
    pub clients: Map<Seq<char>, u64>,
    /// The number of the next client.
    pub next: nat,
}

/// The clients of `names`, numbered from `next`.
pub open spec fn created_clients(names: Seq<Seq<char>>, next: nat) -> Seq<(Seq<char>, u64)> {
    Seq::new(names.len(), |i: int| (names[i], (next + i) as u64))
}

impl RegistryView {
    /// No clients.
    pub open spec fn initial() -> RegistryView {
        RegistryView { clients: Map::empty(), next: 0 }
    }

    /// Every client has a number that was handed out, and no two share one.
    pub open spec fn wf(self) -> bool {
        &&& forall|n: Seq<char>| #[trigger]
            self.clients.contains_key(n) ==> self.clients[n] < self.next
        &&& forall|m: Seq<char>, n: Seq<char>|
            #![trigger self.clients.contains_key(m), self.clients.contains_key(n)]
            self.clients.contains_key(m) && self.clients.contains_key(n) && self.clients[m]
                == self.clients[n] ==> m == n
    }

    /// Those of `names` that have no client, in order.
    pub open spec fn missing(self, names: Seq<Seq<char>>) -> Seq<Seq<char>> {
        absent(self.clients, names)
    }

    /// There are numbers left for those of `names` that have no client.
    pub open spec fn fits(self, names: Seq<Seq<char>>) -> bool {
        self.next + self.missing(names).len() <= u64::MAX
    }

    /// The registry with a client for each of `names`: the clients that are
    /// there stay, the others are new.
    pub open spec fn with_added(self, names: Seq<Seq<char>>) -> RegistryView {
        RegistryView {
            clients: number_all(self.clients, self.missing(names), self.next),
            next: self.next + self.missing(names).len(),
        }
    }

    /// The registry without the clients of clusters outside `keep`.
    pub open spec fn with_kept(self, keep: Set<Seq<char>>) -> RegistryView {
        RegistryView { clients: self.clients.restrict(keep), next: self.next }
    }

    /// The registry with exactly the clients of `active`.
    pub open spec fn synced(self, active: Seq<Seq<char>>) -> RegistryView {
        self.with_kept(active.to_set()).with_added(active)
    }
}

/// `r` is what a look-up of `key` gives: the client of that cluster, if it has one.
pub open spec fn looked_up(view: RegistryView, key: Seq<char>, r: Option<ClusterClient>) -> bool {
    match r {
        Some(client) => view.clients.contains_key(key) && client@ == (key, view.clients[key]),
        None => !view.clients.contains_key(key),
    }
}

/// Adding clients keeps the registry well-formed; afterwards the clusters with
/// a client are those that had one and those that were added, a client that
/// was there stays, and a new one has a number that no client had before.
pub proof fn lemma_with_added(pre: RegistryView, names: Seq<Seq<char>>)
    requires
        pre.wf(),
        names.no_duplicates(),
        pre.fits(names),
    ensures
        pre.with_added(names).wf(),
        pre.with_added(names).clients.dom() == pre.clients.dom().union(names.to_set()),
        forall|n: Seq<char>| #[trigger]
            pre.clients.contains_key(n) ==> pre.with_added(names).clients[n] == pre.clients[n],
        forall|n: Seq<char>|
            names.contains(n) && !pre.clients.contains_key(n) ==> pre.next <= #[trigger]
            pre.with_added(names).clients[n] < pre.with_added(names).next,
        pre.next <= pre.with_added(names).next,
{
    let fresh = pre.missing(names);
    let post = pre.with_added(names);
    lemma_absent(pre.clients, names);
    lemma_number_all(pre.clients, fresh, pre.next);
    assert forall|n: Seq<char>| fresh.to_set().contains(n) == (names.contains(n)
        && !pre.clients.contains_key(n)) by {
        assert(fresh.contains(n) == (names.contains(n) && !pre.clients.contains_key(n)));
    }
    assert(post.clients.dom() =~= pre.clients.dom().union(names.to_set()));
    assert forall|n: Seq<char>| #[trigger] pre.clients.contains_key(n) implies post.clients[n]
        == pre.clients[n] by {
        assert(!fresh.contains(n));
    }
    assert forall|n: Seq<char>|
        names.contains(n) && !pre.clients.contains_key(n) implies pre.next <= #[trigger]
    post.clients[n] < post.next by {
        assert(fresh.contains(n));
        assert(fresh[fresh.index_of(n)] == n);
    }
    assert forall|n: Seq<char>| #[trigger] post.clients.contains_key(n) implies post.clients[n]
        < post.next by {
        assert(post.clients.dom().contains(n));
        if !pre.clients.contains_key(n) {
            assert(names.contains(n));
        }
    }
    assert forall|m: Seq<char>, n: Seq<char>|
        #![trigger post.clients.contains_key(m), post.clients.contains_key(n)]
        post.clients.contains_key(m) && post.clients.contains_key(n) && post.clients[m]
            == post.clients[n] implies m == n by {
        assert(post.clients.dom().contains(m));
        assert(post.clients.dom().contains(n));
        if pre.clients.contains_key(m) && pre.clients.contains_key(n) {
        } else if !pre.clients.contains_key(m) && !pre.clients.contains_key(n) {
            assert(fresh.contains(m));
            assert(fresh.contains(n));
            assert(fresh[fresh.index_of(m)] == m);
            assert(fresh[fresh.index_of(n)] == n);
        } else {
            assert(names.contains(m) || names.contains(n));
        }
    }
}

/// Dropping clients keeps the registry well-formed.
pub proof fn lemma_with_kept(pre: RegistryView, keep: Set<Seq<char>>)
    requires
        pre.wf(),
    ensures
        pre.with_kept(keep).wf(),
        pre.with_kept(keep).clients.dom() == pre.clients.dom().intersect(keep),
{
    let post = pre.with_kept(keep);
    assert(post.clients.dom() =~= pre.clients.dom().intersect(keep));
    assert forall|n: Seq<char>| #[trigger] post.clients.contains_key(n) implies post.clients[n]
        < post.next by {
        assert(pre.clients.contains_key(n));
    }
    assert forall|m: Seq<char>, n: Seq<char>|
        #![trigger post.clients.contains_key(m), post.clients.contains_key(n)]
        post.clients.contains_key(m) && post.clients.contains_key(n) && post.clients[m]
            == post.clients[n] implies m == n by {
        assert(pre.clients.contains_key(m) && pre.clients.contains_key(n));
    }
}

/// The clients of all clusters.
///
/// Clients enter and leave it only by [`Self::add_clusters`],
/// [`Self::evict_clusters`] and [`Self::sync_clusters`]; a request can only
/// look them up, so that one which races an eviction cannot bring an evicted
/// client back.
pub struct ClusterClientRegistry {
    registry: DashMap<String, u64>,
    next_client: u64,
}

impl View for ClusterClientRegistry {
    type V = RegistryView;

    closed spec fn view(&self) -> RegistryView {
        RegistryView { clients: dash_contents(self.registry), next: self.next_client as nat }
    }
}

impl ClusterClientRegistry {
    /// The registry is well-formed.
    pub open spec fn wf(&self) -> bool {
        self@.wf()
    }

    /// An empty registry.
    pub fn new() -> (r: Self)
        ensures
            r.wf(),
            r@ == RegistryView::initial(),
    {
        ClusterClientRegistry { registry: dash_new(), next_client: 0 }
    }

    /// Whether there are numbers left for those of `active` that have no client.
    pub fn has_room(&self, active: &KeySet<String>) -> (r: bool)
        ensures
            r == self@.fits(active.listed()),
    {
        let ghost names = active.listed();
        let mut missing: usize = 0;
        let n: usize = active.count();
        let mut i: usize = 0;
        proof {
            lemma_absent_prefix(self@.clients, names, 0);
        }
        while i < n
            invariant
                i <= n,
                names == active.listed(),
                n == names.len(),
                missing == self@.missing(names.take(i as int)).len(),
                missing <= i,
            decreases n - i,
        {
            proof {
                lemma_absent_prefix(self@.clients, names, i as int);
            }
            if dash_get(&self.registry, active.at(i).as_str()).is_none() {
                missing = missing + 1;
            }
            i = i + 1;
        }
        assert(names.take(i as int) =~= names);
        missing as u64 <= u64::MAX - self.next_client
    }

    /// Whether this is the client of the cluster that it was created for, and
    /// has not been dropped.
    pub fn holds(&self, client: &ClusterClient) -> (r: bool)
        ensures
            r == (self@.clients.contains_key(client@.0) && self@.clients[client@.0] == client@.1),
    {
        match dash_get(&self.registry, client.name()) {
            Some(id) => id == client.id,
            None => false,
        }
    }

    /// Looks up the client of a cluster.
    pub fn get_cluster(&self, key: &str) -> (r: Option<ClusterClient>)
        ensures
            looked_up(self@, key@, r),
    {
        match dash_get(&self.registry, key) {
            Some(id) => Some(ClusterClient::new(String::from_str(key), id)),
            None => None,
        }
    }

    /// Creates a client for every cluster of `active` that has none, and
    /// returns the new ones in the order in which `active` lists them.
    pub fn add_clusters(&mut self, active: &KeySet<String>) -> (r: Vec<ClusterClient>)
        requires
            old(self).wf(),
            active.wf(),
            old(self)@.fits(active.listed()),
        ensures
            final(self).wf(),
            final(self)@ == old(self)@.with_added(active.listed()),
            views(r@) == created_clients(
                old(self)@.missing(active.listed()),
                old(self)@.next,
            ),
    {
        let ghost before = self@;
        let ghost names = active.listed();
        let mut created: Vec<ClusterClient> = Vec::new();
        let n: usize = active.count();
        let mut i: usize = 0;
        proof {
            lemma_absent_prefix(before.clients, names, 0);
            assert(before.missing(names.take(0)) =~= Seq::<Seq<char>>::empty());
            assert(views(created@) =~= created_clients(
                before.missing(names.take(0)),
                before.next,
            ));
        }
        while i < n
            invariant
                i <= n,
                names == active.listed(),
                n == names.len(),
                names.no_duplicates(),
                before.wf(),
                before.fits(names),
                self@ == before.with_added(names.take(i as int)),
                views(created@) == created_clients(
                    before.missing(names.take(i as int)),
                    before.next,
                ),
            decreases n - i,
        {
            let name = active.at(i);
            let id: u64 = self.next_client;
            let ghost p = before.missing(names.take(i as int));
            let ghost q = before.missing(names.take(i + 1));
            let ghost listed = created@;
            proof {
                lemma_absent_prefix(before.clients, names, i as int);
                lemma_absent_prefix(before.clients, names, i + 1);
                assert(!names.take(i as int).contains(name@)) by {
                    if names.take(i as int).contains(name@) {
                        let j = names.take(i as int).index_of(name@);
                        assert(names[j] == names[i as int]);
                    }
                }
                lemma_with_added(before, names.take(i as int));
                assert(self@.clients.contains_key(name@) == before.clients.contains_key(name@)) by {
                    assert(self@.clients.dom().contains(name@)
                        == before.clients.dom().contains(name@));
                }
            }
            let stored = dash_or_insert(&mut self.registry, name.clone(), id);
            if stored == id {
                assert(q == p.push(name@));
                assert(q.drop_last() =~= p);
                created.push(ClusterClient::new(name.clone(), id));
                self.next_client = id + 1;
                proof {
                    assert(views(created@) =~= views(listed).push((name@, id)));
                    assert(created_clients(q, before.next) =~= created_clients(
                        p,
                        before.next,
                    ).push((name@, id)));
                }
            } else {
                assert(q == p);
            }
            i = i + 1;
        }
        proof {
            assert(names.take(i as int) =~= names);
            lemma_with_added(before, names);
        }
        created
    }

    /// Drops the client of every cluster outside `keep`.
    ///
    /// Requests that hold an evicted client keep its channel alive until they
    /// complete.
    pub fn evict_clusters(&mut self, keep: &KeySet<String>)
        requires
            old(self).wf(),
        ensures
            final(self).wf(),
            final(self)@ == old(self)@.with_kept(keep@),
    {
        proof {
            lemma_with_kept(self@, keep@);
        }
        dash_retain(&mut self.registry, keep);
    }

    /// Makes the clusters with a client exactly those of `active`: drops every
    /// other client, creates the missing ones, and returns these in the order
    /// in which `active` lists them.
    pub fn sync_clusters(&mut self, active: &KeySet<String>) -> (r: Vec<ClusterClient>)
        requires
            old(self).wf(),
            active.wf(),
            old(self)@.fits(active.listed()),
        ensures
            final(self).wf(),
            final(self)@ == old(self)@.synced(active.listed()),
            views(r@) == created_clients(
                old(self)@.missing(active.listed()),
                old(self)@.next,
            ),
    {
        let ghost before = self@;
        self.evict_clusters(active);
        proof {
            assert(self@.missing(active.listed()) == before.missing(active.listed())) by {
                lemma_missing_kept(before, active.listed());
            }
        }
        self.add_clusters(active)
    }
}

/// Dropping clients outside `names` leaves the same ones of `names` missing.
proof fn lemma_missing_kept(pre: RegistryView, names: Seq<Seq<char>>)
    ensures
        pre.with_kept(names.to_set()).missing(names) == pre.missing(names),
{
    lemma_absent_restrict(pre.clients, names, names.to_set());
}

/// Restricting a map to a set that holds all of `names` leaves the same ones of
/// them absent.
proof fn lemma_absent_restrict(
    map: Map<Seq<char>, u64>,
    names: Seq<Seq<char>>,
    keep: Set<Seq<char>>,
)
    requires
        forall|i: int| 0 <= i < names.len() ==> keep.contains(#[trigger] names[i]),
    ensures
        absent(map.restrict(keep), names) == absent(map, names),
    decreases names.len(),
{
    reveal(Seq::filter);
    if names.len() > 0 {
        let before = names.drop_last();
        assert forall|i: int| 0 <= i < before.len() implies keep.contains(#[trigger] before[i]) by {
            assert(before[i] == names[i]);
        }
        lemma_absent_restrict(map, before, keep);
        assert(keep.contains(names[names.len() - 1]));
    }
}

/// After a synchronisation exactly the active clusters have clients; one that
/// had a client before keeps it, and the client of any other is new.
pub proof fn law_sync_is_exact(pre: RegistryView, active: Seq<Seq<char>>)
    requires
        pre.wf(),
        active.no_duplicates(),
        pre.fits(active),
    ensures
        ({
            let post = pre.synced(active);
            &&& post.wf()
            &&& post.clients.dom() == active.to_set()
            &&& forall|n: Seq<char>|
                active.contains(n) && pre.clients.contains_key(n) ==> #[trigger] post.clients[n]
                    == pre.clients[n]
            &&& forall|n: Seq<char>|
                active.contains(n) && !pre.clients.contains_key(n) ==> pre.next
                    <= #[trigger] post.clients[n]
            &&& pre.next <= post.next
        }),
{
    let kept = pre.with_kept(active.to_set());
    let post = kept.with_added(active);
    lemma_with_kept(pre, active.to_set());
    lemma_missing_kept(pre, active);
    lemma_with_added(kept, active);
    assert(post.clients.dom() =~= active.to_set());
    assert forall|n: Seq<char>| active.contains(n) && pre.clients.contains_key(n) implies
        #[trigger] post.clients[n] == pre.clients[n] by {
        assert(active.to_set().contains(n));
        assert(kept.clients.contains_key(n));
    }
    assert forall|n: Seq<char>| active.contains(n) && !pre.clients.contains_key(n) implies pre.next
        <= #[trigger] post.clients[n] by {
        assert(!kept.clients.contains_key(n));
    }
}

/// Synchronising with the same clusters again changes nothing.
pub proof fn law_sync_again_changes_nothing(pre: RegistryView, active: Seq<Seq<char>>)
    requires
        pre.wf(),
        pre.clients.dom() == active.to_set(),
    ensures
        pre.synced(active) == pre,
{
    let kept = pre.with_kept(active.to_set());
    assert(kept.clients =~= pre.clients);
    lemma_none_absent(pre.clients, active);
}

/// No name of a list is absent from a map that holds them all.
proof fn lemma_none_absent(map: Map<Seq<char>, u64>, names: Seq<Seq<char>>)
    requires
        forall|i: int| 0 <= i < names.len() ==> map.dom().contains(#[trigger] names[i]),
    ensures
        absent(map, names) == Seq::<Seq<char>>::empty(),
    decreases names.len(),
{
    reveal(Seq::filter);
    if names.len() > 0 {
        let before = names.drop_last();
        assert forall|i: int| 0 <= i < before.len() implies map.dom().contains(
            #[trigger] before[i],
        ) by {
            assert(before[i] == names[i]);
        }
        lemma_none_absent(map, before);
        assert(map.dom().contains(names[names.len() - 1]));
    }
}

/// A cluster that was evicted and comes back gets a new client, not the evicted
/// one.
pub proof fn law_readded_cluster_gets_new_client(
    pre: RegistryView,
    without: Seq<Seq<char>>,
    with: Seq<Seq<char>>,
    n: Seq<char>,
)
    requires
        pre.wf(),
        without.no_duplicates(),
        with.no_duplicates(),
        pre.fits(without),
        pre.synced(without).fits(with),
        pre.clients.contains_key(n),
        !without.contains(n),
        with.contains(n),
    ensures
        ({
            let evicted = pre.synced(without);
            let post = evicted.synced(with);
            &&& !evicted.clients.contains_key(n)
            &&& post.clients.contains_key(n)
            &&& post.clients[n] != pre.clients[n]
        }),
{
    let evicted = pre.synced(without);
    let post = evicted.synced(with);
    law_sync_is_exact(pre, without);
    assert(!evicted.clients.dom().contains(n)) by {
        assert(!without.to_set().contains(n));
    }
    law_sync_is_exact(evicted, with);
    assert(post.clients.dom().contains(n)) by {
        assert(with.to_set().contains(n));
    }
}

/// A history of synchronisations: `states` one after the other from an empty
/// registry on, each led to the next by a synchronisation with a list of clusters.
pub open spec fn sync_history(states: Seq<RegistryView>, actives: Seq<Seq<Seq<char>>>) -> bool {
    &&& states.len() == actives.len() + 1
    &&& states[0] == RegistryView::initial()
    &&& forall|k: int|
        0 <= k < actives.len() ==> {
            &&& (#[trigger] actives[k]).no_duplicates()
            &&& states[k].fits(actives[k])
            &&& states[k + 1] == states[k].synced(actives[k])
        }
}

/// The clusters of the last synchronisation, or none if there was none.
pub open spec fn last_synced(actives: Seq<Seq<Seq<char>>>) -> Set<Seq<char>> {
    if actives.len() == 0 {
        Set::empty()
    } else {
        actives.last().to_set()
    }
}

/// The clients that the synchronisation `k` of a history creates.
pub open spec fn created_at(
    states: Seq<RegistryView>,
    actives: Seq<Seq<Seq<char>>>,
    k: int,
) -> Seq<(Seq<char>, u64)> {
    created_clients(states[k].missing(actives[k]), states[k].next)
}

/// Every state of a history is well-formed, later ones have handed out no fewer
/// numbers, and every client in them was created for its cluster.
proof fn lemma_sync_history(states: Seq<RegistryView>, actives: Seq<Seq<Seq<char>>>, k: int)
    requires
        sync_history(states, actives),
        0 <= k <= actives.len(),
    ensures
        states[k].wf(),
        forall|j: int| 0 <= j <= k ==> (#[trigger] states[j]).next <= states[k].next,
        forall|n: Seq<char>| #[trigger]
            states[k].clients.contains_key(n) ==> exists|i: int|
                0 <= i < k && #[trigger] created_at(states, actives, i).contains(
                    (n, states[k].clients[n]),
                ),
    decreases k,
{
    if k > 0 {
        lemma_sync_history(states, actives, k - 1);
        let pre = states[k - 1];
        let active = actives[k - 1];
        let post = states[k];
        law_sync_is_exact(pre, active);
        assert forall|j: int| 0 <= j <= k implies (#[trigger] states[j]).next <= post.next by {
            if j < k {
                assert(states[j].next <= pre.next);
            }
        }
        assert forall|n: Seq<char>| #[trigger] post.clients.contains_key(n) implies exists|i: int|
            0 <= i < k && #[trigger] created_at(states, actives, i).contains(
                (n, post.clients[n]),
            ) by {
            assert(post.clients.dom().contains(n));
            assert(active.to_set().contains(n));
            if pre.clients.contains_key(n) {
                assert(post.clients[n] == pre.clients[n]);
                let i = choose|i: int|
                    0 <= i < k - 1 && #[trigger] created_at(states, actives, i).contains(
                        (n, pre.clients[n]),
                    );
                assert(created_at(states, actives, i).contains((n, post.clients[n])));
            } else {
                let kept = pre.with_kept(active.to_set());
                let fresh = pre.missing(active);
                lemma_missing_kept(pre, active);
                lemma_absent(pre.clients, active);
                lemma_number_all(kept.clients, fresh, pre.next);
                assert(fresh.contains(n));
                let x = fresh.index_of(n);
                assert(fresh[x] == n);
                assert(created_at(states, actives, k - 1)[x] == (n, post.clients[n]));
                assert(created_at(states, actives, k - 1).contains((n, post.clients[n])));
            }
        }
    }
}

/// A look-up finds a client exactly for the clusters of the last synchronisation.
pub proof fn law_lookup_finds_last_synced(
    states: Seq<RegistryView>,
    actives: Seq<Seq<Seq<char>>>,
    key: Seq<char>,
    r: Option<ClusterClient>,
)
    requires
        sync_history(states, actives),
        looked_up(states.last(), key, r),
    ensures
        r is Some <==> last_synced(actives).contains(key),
{
    if actives.len() > 0 {
        let k = actives.len() - 1;
        lemma_sync_history(states, actives, k);
        law_sync_is_exact(states[k], actives[k]);
        assert(states.last().clients.dom().contains(key) == actives[k].to_set().contains(key));
    }
}

/// A look-up finds the client of a cluster that has one, under its name and number, and
/// none of one that has none.
pub proof fn law_lookup_is_exact(
    view: RegistryView,
    key: Seq<char>,
    r: Option<ClusterClient>,
)
    requires
        looked_up(view, key, r),
    ensures
        r is Some <==> view.clients.contains_key(key),
        r matches Some(client) ==> client@.0 == key && client@.1 == view.clients[key],
{
}

/// A new registry has no clients.
pub proof fn law_initial_registry_is_empty(n: Seq<char>)
    ensures
        !RegistryView::initial().clients.contains_key(n),
{
}

/// Adding clusters gives each of them that has none a new client, with a number of its
/// own, and reports exactly these, each once; every other client stays as it is.
pub proof fn law_added_clusters_get_clients(pre: RegistryView, names: Seq<Seq<char>>)
    requires
        pre.wf(),
        names.no_duplicates(),
        pre.fits(names),
    ensures
        ({
            let post = pre.with_added(names);
            let created = created_clients(pre.missing(names), pre.next);
            &&& forall|n: Seq<char>| #[trigger]
                post.clients.contains_key(n) <==> pre.clients.contains_key(n) || names.contains(n)
            &&& forall|n: Seq<char>| #[trigger]
                pre.clients.contains_key(n) ==> post.clients[n] == pre.clients[n]
            &&& forall|n: Seq<char>|
                names.contains(n) && !pre.clients.contains_key(n) ==> pre.next
                    <= #[trigger] post.clients[n] < post.next && created.contains(
                    (n, post.clients[n]),
                )
            &&& forall|i: int|
                0 <= i < created.len() ==> names.contains((#[trigger] created[i]).0)
                    && !pre.clients.contains_key(created[i].0) && post.clients[created[i].0]
                    == created[i].1
            &&& forall|i: int, j: int|
                0 <= i < j < created.len() ==> (#[trigger] created[i]).0 != (
                #[trigger] created[j]).0 && created[i].1 != created[j].1
        }),
{
    let post = pre.with_added(names);
    let fresh = pre.missing(names);
    let created = created_clients(fresh, pre.next);
    lemma_with_added(pre, names);
    lemma_absent(pre.clients, names);
    lemma_number_all(pre.clients, fresh, pre.next);
    assert forall|n: Seq<char>| #[trigger]
        post.clients.contains_key(n) <==> pre.clients.contains_key(n) || names.contains(n) by {
        assert(post.clients.dom().contains(n) == pre.clients.dom().union(names.to_set()).contains(
            n,
        ));
    }
    assert forall|n: Seq<char>|
        names.contains(n) && !pre.clients.contains_key(n) implies pre.next
        <= #[trigger] post.clients[n] < post.next && created.contains((n, post.clients[n])) by {
        assert(fresh.contains(n));
        let x = fresh.index_of(n);
        assert(fresh[x] == n);
        assert(created[x] == (n, post.clients[n]));
    }
    assert forall|i: int| 0 <= i < created.len() implies names.contains((#[trigger] created[i]).0)
        && !pre.clients.contains_key(created[i].0) && post.clients[created[i].0]
        == created[i].1 by {
        assert(fresh.contains(fresh[i]));
    }
    assert forall|i: int, j: int| 0 <= i < j < created.len() implies (#[trigger] created[i]).0 != (
    #[trigger] created[j]).0 && created[i].1 != created[j].1 by {
        assert(fresh[i] != fresh[j]);
    }
}

/// Evicting drops exactly the clients of clusters outside `keep`; the others stay as
/// they are, and no number is handed out or taken back.
pub proof fn law_eviction_drops_exactly_the_others(pre: RegistryView, keep: Set<Seq<char>>)
    ensures
        forall|n: Seq<char>| #[trigger]
            pre.with_kept(keep).clients.contains_key(n) <==> pre.clients.contains_key(n)
                && keep.contains(n),
        forall|n: Seq<char>| #[trigger]
            pre.with_kept(keep).clients.contains_key(n) ==> pre.with_kept(keep).clients[n]
                == pre.clients[n],
        pre.with_kept(keep).next == pre.next,
{
}

/// Clusters fit as long as there are as many numbers left as there are clusters.
pub proof fn law_clusters_fit_while_there_is_room(pre: RegistryView, names: Seq<Seq<char>>)
    requires
        pre.next + names.len() <= u64::MAX,
    ensures
        pre.fits(names),
{
    lemma_absent_prefix(pre.clients, names, names.len() as int);
    assert(names.take(names.len() as int) =~= names);
}

/// Two look-ups of a cluster with no change of the registry between them find the
/// same client, or both none.
pub proof fn law_lookups_agree(
    view: RegistryView,
    key: Seq<char>,
    first: Option<ClusterClient>,
    second: Option<ClusterClient>,
)
    requires
        looked_up(view, key, first),
        looked_up(view, key, second),
    ensures
        first is Some <==> second is Some,
        first is Some ==> first->0@ == second->0@,
{
}

/// A client that a look-up finds bears the name that was asked for, and was
/// created by a synchronisation for that very cluster; its number, by which its
/// channel is found, was never handed out for another cluster.
pub proof fn law_found_client_was_created_for_its_cluster(
    states: Seq<RegistryView>,
    actives: Seq<Seq<Seq<char>>>,
    key: Seq<char>,
    client: ClusterClient,
)
    requires
        sync_history(states, actives),
        looked_up(states.last(), key, Some(client)),
    ensures
        client@.0 == key,
        exists|i: int|
            0 <= i < actives.len() && #[trigger] created_at(states, actives, i).contains(client@),
        forall|i: int, x: int|
            #![trigger created_at(states, actives, i)[x]]
            0 <= i < actives.len() && 0 <= x < created_at(states, actives, i).len() && created_at(
                states,
                actives,
                i,
            )[x].1 == client@.1 ==> created_at(states, actives, i)[x].0 == key,
{
    lemma_sync_history(states, actives, actives.len() as int);
    assert(states.last().clients.contains_key(key));
    let h = choose|h: int|
        0 <= h < actives.len() && #[trigger] created_at(states, actives, h).contains(client@);
    let y = created_at(states, actives, h).index_of(client@);
    assert(created_at(states, actives, h)[y] == client@);
    assert forall|i: int, x: int|
        #![trigger created_at(states, actives, i)[x]]
        0 <= i < actives.len() && 0 <= x < created_at(states, actives, i).len() && created_at(
            states,
            actives,
            i,
        )[x].1 == client@.1 implies created_at(states, actives, i)[x].0 == key by {
        assert(actives[i].no_duplicates() && actives[h].no_duplicates());
        lemma_missing_kept(states[i], actives[i]);
        lemma_missing_kept(states[h], actives[h]);
        assert(states[i + 1].next == states[i].next + states[i].missing(actives[i]).len());
        assert(states[h + 1].next == states[h].next + states[h].missing(actives[h]).len());
        if i < h {
            lemma_sync_history(states, actives, h);
            assert(states[i + 1].next <= states[h].next);
        } else if h < i {
            lemma_sync_history(states, actives, i);
            assert(states[h + 1].next <= states[i].next);
        }
    }
}

impl Default for ClusterClientRegistry {
    fn default() -> (r: Self)
        ensures
            r.wf(),
            r@ == RegistryView::initial(),
    {
        ClusterClientRegistry::new()
    }
}

} // verus!
