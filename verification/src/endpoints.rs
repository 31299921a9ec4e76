//! Turns snapshots of a cluster's endpoints into incremental changes for its
//! load balancer.
//!
//! Each snapshot is compared with the endpoints wanted so far. An endpoint that
//! appears is connected to; only once the connection stands is it given to the
//! balancer, so that no request meets an unconnected endpoint. An endpoint that
//! disappears has its attempt cancelled, and is taken from the balancer if it
//! was there.

use crate::address::EndpointAddress;
use crate::keyed::{lemma_take_push, lists, views, Key, KeySet};
use crate::resource::EndpointsResource;
use vstd::prelude::*;

verus! {

/// What an [`EndpointAddress`] stands for.
pub type Address = (Seq<char>, u16);

/// One thing to be done on behalf of the endpoints' diff.
#[derive(Debug, PartialEq, Eq)]
pub enum EndpointAction {
    /// Start to connect to this endpoint, and keep trying.
    Connect(EndpointAddress),
    /// Give up connecting to this endpoint, if that is under way.
    Cancel(EndpointAddress),
    /// Give the connected endpoint to the balancer.
    Insert(EndpointAddress),
    /// Take the endpoint from the balancer.
    Remove(EndpointAddress),
    /// Watch the cluster's endpoints anew: the name may come back.
    Resubscribe,
}

/// The view of an [`EndpointAction`].
pub enum EndpointActionView {
    Connect(Address),
    Cancel(Address),
    Insert(Address),
    Remove(Address),
    Resubscribe,
}

impl View for EndpointAction {
    type V = EndpointActionView;

    open spec fn view(&self) -> EndpointActionView {
        match *self {
            EndpointAction::Connect(a) => EndpointActionView::Connect(a@),
            EndpointAction::Cancel(a) => EndpointActionView::Cancel(a@),
            EndpointAction::Insert(a) => EndpointActionView::Insert(a@),
            EndpointAction::Remove(a) => EndpointActionView::Remove(a@),
            EndpointAction::Resubscribe => EndpointActionView::Resubscribe,
        }
    }
}

/// What an [`EndpointDiff`] stands for.
pub struct DiffView {
    /// The endpoints of the latest snapshot.
    pub desired: Set<Address>,
    /// The endpoints that the balancer was given.
    pub inserted: Set<Address>,
}

impl DiffView {
    /// No snapshot yet.
    pub open spec fn initial() -> DiffView {
        DiffView { desired: Set::empty(), inserted: Set::empty() }
    }

    /// The balancer has only wanted endpoints.
    pub open spec fn wf(self) -> bool {
        self.inserted.subset_of(self.desired)
    }

    /// The endpoints that are wanted and not connected yet.
    pub open spec fn connecting(self) -> Set<Address> {
        self.desired.difference(self.inserted)
    }

    /// The state once the endpoints `wanted` are those of the latest snapshot.
    pub open spec fn diffed(self, wanted: Set<Address>) -> DiffView {
        DiffView { desired: wanted, inserted: self.inserted.intersect(wanted) }
    }
}

/// The actions that connect to each of `added`.
pub open spec fn connect_actions(added: Seq<Address>) -> Seq<EndpointActionView> {
    Seq::new(added.len(), |i: int| EndpointActionView::Connect(added[i]))
}

/// The actions that let go of one endpoint.
pub open spec fn release_one(inserted: Set<Address>, a: Address) -> Seq<EndpointActionView> {
    seq![EndpointActionView::Cancel(a)] + (if inserted.contains(a) {
        seq![EndpointActionView::Remove(a)]
    } else {
        Seq::empty()
    })
}

/// The actions that let go of each of `removed`.
pub open spec fn release_actions(inserted: Set<Address>, removed: Seq<Address>) -> Seq<
    EndpointActionView,
>
    decreases removed.len(),
{
    if removed.len() == 0 {
        Seq::empty()
    } else {
        release_actions(inserted, removed.drop_last()) + release_one(inserted, removed.last())
    }
}

/// What a snapshot leads to: the endpoints that are new in it are connected to,
/// in some order, and then those that are gone are let go of, in some order.
/// Without a snapshot, when the cluster left the configuration, all endpoints
/// are let go of and the watch starts anew.
pub open spec fn snapshot_step(
    pre: DiffView,
    snapshot: Option<Set<Address>>,
    actions: Seq<EndpointActionView>,
) -> bool {
    match snapshot {
        Some(wanted) => exists|added: Seq<Address>, removed: Seq<Address>|
            {
                &&& #[trigger] lists(added, wanted.difference(pre.desired))
                &&& #[trigger] lists(removed, pre.desired.difference(wanted))
                &&& actions == connect_actions(added) + release_actions(pre.inserted, removed)
            },
        None => exists|removed: Seq<Address>|
            {
                &&& #[trigger] lists(removed, pre.desired)
                &&& actions == release_actions(pre.inserted, removed) + seq![
                    EndpointActionView::Resubscribe,
                ]
            },
    }
}

/// The endpoints that a snapshot asks for.
pub open spec fn wanted_by(snapshot: Option<Set<Address>>) -> Set<Address> {
    match snapshot {
        Some(wanted) => wanted,
        None => Set::empty(),
    }
}

/// The comparison of snapshots, endpoint by endpoint.
pub struct EndpointDiff {
    /// The endpoints of the latest snapshot.
    desired: KeySet<EndpointAddress>,
    /// The endpoints that the balancer was given.
    inserted: KeySet<EndpointAddress>,
}

impl View for EndpointDiff {
    type V = DiffView;

    closed spec fn view(&self) -> DiffView {
        DiffView { desired: self.desired@, inserted: self.inserted@ }
    }
}

impl EndpointDiff {
    /// The sets are well-formed.
    pub closed spec fn parts_wf(&self) -> bool {
        self.desired.wf() && self.inserted.wf()
    }

    /// The state is well-formed.
    pub open spec fn wf(&self) -> bool {
        self.parts_wf() && self@.wf()
    }

    /// No snapshot yet.
    pub fn new() -> (r: Self)
        ensures
            r.wf(),
            r@ == DiffView::initial(),
    {
        EndpointDiff { desired: KeySet::new(), inserted: KeySet::new() }
    }

    /// Appends the connection attempts for the members of `wanted` that are not
    /// desired yet.
    fn connect_added(&self, wanted: &KeySet<EndpointAddress>, actions: &mut Vec<EndpointAction>)
        -> (added: Ghost<Seq<Address>>)
        requires
            self.wf(),
            wanted.wf(),
        ensures
            lists(added@, wanted@.difference(self@.desired)),
            views(final(actions)@) == views(old(actions)@) + connect_actions(added@),
    {
        let ghost mut added = Seq::<Address>::empty();
        let ghost done = views(actions@);
        let n: usize = wanted.count();
        let mut i: usize = 0;
        assert(views(actions@) =~= done + connect_actions(added));
        while i < n
            invariant
                i <= n,
                n == wanted.listed().len(),
                wanted.wf(),
                added.no_duplicates(),
                forall|a: Address| #[trigger]
                    added.contains(a) == (wanted.listed().take(i as int).contains(a)
                        && !self@.desired.contains(a)),
                views(actions@) == done + connect_actions(added),
            decreases n - i,
        {
            let address = wanted.at(i);
            let ghost listed = actions@;
            let ghost before = added;
            let ghost p = wanted.listed().take(i as int);
            let ghost q = wanted.listed().take(i + 1);
            proof {
                lemma_take_push(wanted.listed(), i as int);
            }
            if !self.desired.contains(address) {
                actions.push(EndpointAction::Connect(address.duplicate()));
                proof {
                    added = before.push(address@);
                    lemma_push_fresh(before, address@);
                    assert(connect_actions(added) =~= connect_actions(before).push(
                        EndpointActionView::Connect(address@),
                    ));
                    assert(views(actions@) =~= views(listed).push(
                        EndpointActionView::Connect(address@),
                    ));
                    assert(views(actions@) =~= done + connect_actions(added));
                }
            }
            assert forall|a: Address| #[trigger] added.contains(a) == (q.contains(a)
                && !self@.desired.contains(a)) by {
                assert(before.contains(a) == (p.contains(a) && !self@.desired.contains(a)));
                assert(q.contains(a) == (p.contains(a) || a == address@));
            }
            i = i + 1;
        }
        proof {
            assert(wanted.listed().take(i as int) =~= wanted.listed());
            assert forall|a: Address| added.to_set().contains(a) == wanted@.difference(
                self@.desired,
            ).contains(a) by {
                assert(added.contains(a) == (wanted.listed().contains(a)
                    && !self@.desired.contains(a)));
                assert(wanted.listed().to_set().contains(a) == wanted@.contains(a));
            }
            assert(added.to_set() =~= wanted@.difference(self@.desired));
        }
        Ghost(added)
    }

    /// Takes every desired endpoint that is not in `wanted` from the inserted
    /// ones, and appends the actions that let go of it.
    fn release_removed(
        &mut self,
        wanted: &KeySet<EndpointAddress>,
        actions: &mut Vec<EndpointAction>,
    ) -> (removed: Ghost<Seq<Address>>)
        requires
            old(self).wf(),
        ensures
            final(self).parts_wf(),
            final(self)@.desired == old(self)@.desired,
            final(self)@.inserted == old(self)@.inserted.intersect(wanted@),
            lists(removed@, old(self)@.desired.difference(wanted@)),
            views(final(actions)@) == views(old(actions)@) + release_actions(
                old(self)@.inserted,
                removed@,
            ),
    {
        let ghost pre = self@;
        let ghost mut removed = Seq::<Address>::empty();
        let ghost done = views(actions@);
        let n: usize = self.desired.count();
        let mut i: usize = 0;
        proof {
            assert(views(actions@) =~= done + release_actions(pre.inserted, removed));
            assert(pre.inserted =~= pre.inserted.difference(removed.to_set()));
        }
        while i < n
            invariant
                i <= n,
                pre == old(self)@,
                self.desired == old(self).desired,
                n == self.desired.listed().len(),
                self.parts_wf(),
                self@.desired == pre.desired,
                self@.inserted == pre.inserted.difference(removed.to_set()),
                removed.no_duplicates(),
                forall|a: Address| #[trigger]
                    removed.contains(a) == (self.desired.listed().take(i as int).contains(a)
                        && !wanted@.contains(a)),
                views(actions@) == done + release_actions(pre.inserted, removed),
            decreases n - i,
        {
            let address = self.desired.at(i).duplicate();
            let ghost listed = actions@;
            let ghost before = removed;
            let ghost p = self.desired.listed().take(i as int);
            let ghost q = self.desired.listed().take(i + 1);
            proof {
                lemma_take_push(self.desired.listed(), i as int);
            }
            if !wanted.contains(&address) {
                proof {
                    assert(!before.contains(address@));
                    removed = before.push(address@);
                    lemma_push_fresh(before, address@);
                    assert(removed.drop_last() =~= before);
                    assert(!before.to_set().contains(address@));
                    assert(removed.to_set() =~= before.to_set().insert(address@));
                }
                let member = self.inserted.remove(&address);
                actions.push(EndpointAction::Cancel(address.duplicate()));
                assert(views(actions@) =~= views(listed).push(
                    EndpointActionView::Cancel(address@),
                ));
                if member {
                    let ghost cancelled = actions@;
                    let ghost a = address@;
                    actions.push(EndpointAction::Remove(address));
                    assert(views(actions@) =~= views(cancelled).push(
                        EndpointActionView::Remove(a),
                    ));
                }
                proof {
                    assert(views(actions@) =~= done + release_actions(pre.inserted, removed));
                    assert(self@.inserted =~= pre.inserted.difference(removed.to_set()));
                }
            }
            assert forall|a: Address| #[trigger] removed.contains(a) == (q.contains(a)
                && !wanted@.contains(a)) by {
                assert(before.contains(a) == (p.contains(a) && !wanted@.contains(a)));
                assert(q.contains(a) == (p.contains(a) || a == self.desired.listed()[i as int]));
            }
            i = i + 1;
        }
        proof {
            assert(self.desired.listed().take(i as int) =~= self.desired.listed());
            assert forall|a: Address| removed.to_set().contains(a) == pre.desired.difference(
                wanted@,
            ).contains(a) by {
                assert(removed.contains(a) == (self.desired.listed().contains(a)
                    && !wanted@.contains(a)));
                assert(self.desired.listed().to_set().contains(a) == self.desired@.contains(a));
            }
            assert(removed.to_set() =~= pre.desired.difference(wanted@));
            assert(self@.inserted =~= pre.inserted.intersect(wanted@));
        }
        Ghost(removed)
    }

    /// Takes in the next snapshot of the cluster's endpoints; `None` means that
    /// the cluster left the configuration.
    pub fn on_snapshot(&mut self, snapshot: Option<&EndpointsResource>) -> (r: Vec<EndpointAction>)
        requires
            old(self).wf(),
        ensures
            final(self).wf(),
            final(self)@ == old(self)@.diffed(wanted_by(healthy_in(snapshot))),
            snapshot_step(old(self)@, healthy_in(snapshot), views(r@)),
    {
        let ghost pre = self@;
        let mut actions: Vec<EndpointAction> = Vec::new();
        let ghost none = views(actions@);
        assert(none =~= Seq::<EndpointActionView>::empty());
        match snapshot {
            None => {
                let wanted: KeySet<EndpointAddress> = KeySet::new();
                let Ghost(removed) = self.release_removed(&wanted, &mut actions);
                self.desired = wanted;
                actions.push(EndpointAction::Resubscribe);
                proof {
                    assert(pre.desired.difference(Set::<Address>::empty()) =~= pre.desired);
                    assert(lists(removed, pre.desired));
                    assert(views(actions@) =~= release_actions(pre.inserted, removed) + seq![
                        EndpointActionView::Resubscribe,
                    ]);
                }
            },
            Some(endpoints) => {
                let wanted = endpoints.healthy_addresses();
                let Ghost(added) = self.connect_added(&wanted, &mut actions);
                let Ghost(removed) = self.release_removed(&wanted, &mut actions);
                self.desired = wanted;
                proof {
                    assert(lists(added, endpoints.healthy().difference(pre.desired)));
                    assert(lists(removed, pre.desired.difference(endpoints.healthy())));
                    assert(views(actions@) =~= connect_actions(added) + release_actions(
                        pre.inserted,
                        removed,
                    ));
                }
            },
        }
        actions
    }

    /// Takes note that the connection to `address` stands: the balancer is
    /// given the endpoint if it is still wanted.
    pub fn on_connected(&mut self, address: &EndpointAddress) -> (r: Option<EndpointAction>)
        requires
            old(self).wf(),
        ensures
            final(self).wf(),
            if old(self)@.desired.contains(address@) {
                &&& final(self)@ == (DiffView {
                    inserted: old(self)@.inserted.insert(address@),
                    ..old(self)@
                })
                &&& r is Some
                &&& r->0@ == EndpointActionView::Insert(address@)
            } else {
                final(self)@ == old(self)@ && r is None
            },
    {
        if self.desired.contains(address) {
            let _added = self.inserted.insert(address.duplicate());
            Some(EndpointAction::Insert(address.duplicate()))
        } else {
            None
        }
    }

    /// The endpoints of the latest snapshot.
    pub fn desired(&self) -> (r: &KeySet<EndpointAddress>)
        requires
            self.wf(),
        ensures
            r.wf(),
            r@ == self@.desired,
    {
        &self.desired
    }

    /// The endpoints that the balancer was given.
    pub fn inserted(&self) -> (r: &KeySet<EndpointAddress>)
        requires
            self.wf(),
        ensures
            r.wf(),
            r@ == self@.inserted,
    {
        &self.inserted
    }
}

/// The healthy endpoints of a snapshot, if there is one.
pub open spec fn healthy_in(snapshot: Option<&EndpointsResource>) -> Option<Set<Address>> {
    match snapshot {
        Some(endpoints) => Some(endpoints.healthy()),
        None => None,
    }
}

/// An element that is not listed can be appended without repetition.
proof fn lemma_push_fresh<A>(s: Seq<A>, x: A)
    requires
        s.no_duplicates(),
        !s.contains(x),
    ensures
        s.push(x).no_duplicates(),
        forall|y: A| #[trigger] s.push(x).contains(y) == (s.contains(y) || y == x),
{
    let t = s.push(x);
    assert forall|i: int| 0 <= i < s.len() implies s[i] != x by {
        if s[i] == x {
            assert(s.contains(x));
        }
    }
    assert forall|y: A| #[trigger] t.contains(y) == (s.contains(y) || y == x) by {
        if s.contains(y) {
            assert(t[s.index_of(y)] == y);
        }
        assert(t[s.len() as int] == x);
        if t.contains(y) && y != x {
            assert(s[t.index_of(y)] == y);
        }
    }
}

} // verus!
