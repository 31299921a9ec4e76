//! Laws of the endpoints' diff.

use crate::data_laws::law_healthy_addresses_are_those_of_healthy_endpoints;
use crate::endpoints::{
    connect_actions, healthy_in, release_actions, release_one, snapshot_step, wanted_by, Address,
    DiffView, EndpointActionView,
};
use crate::keyed::lists;
use crate::resource::{EndpointsResource, HealthStatus};
use vstd::prelude::*;

verus! {

/// The balancer's endpoints once some actions have been performed in order.
pub open spec fn members_after(members: Set<Address>, actions: Seq<EndpointActionView>) -> Set<
    Address,
>
    decreases actions.len(),
{
    if actions.len() == 0 {
        members
    } else {
        let before = members_after(members, actions.drop_last());
        match actions.last() {
            EndpointActionView::Insert(a) => before.insert(a),
            EndpointActionView::Remove(a) => before.remove(a),
            _ => before,
        }
    }
}

/// The connection attempts under way once some actions have been performed in
/// order. An endpoint that is given to the balancer has its attempt behind it.
pub open spec fn attempts_after(attempts: Set<Address>, actions: Seq<EndpointActionView>) -> Set<
    Address,
>
    decreases actions.len(),
{
    if actions.len() == 0 {
        attempts
    } else {
        let before = attempts_after(attempts, actions.drop_last());
        match actions.last() {
            EndpointActionView::Connect(a) => before.insert(a),
            EndpointActionView::Cancel(a) => before.remove(a),
            EndpointActionView::Insert(a) => before.remove(a),
            _ => before,
        }
    }
}

/// Actions in two parts are performed one part after the other.
proof fn lemma_concat(
    members: Set<Address>,
    attempts: Set<Address>,
    a: Seq<EndpointActionView>,
    b: Seq<EndpointActionView>,
)
    ensures
        members_after(members, a + b) == members_after(members_after(members, a), b),
        attempts_after(attempts, a + b) == attempts_after(attempts_after(attempts, a), b),
    decreases b.len(),
{
    if b.len() == 0 {
        assert(a + b =~= a);
    } else {
        assert((a + b).drop_last() =~= a + b.drop_last());
        assert((a + b).last() == b.last());
        lemma_concat(members, attempts, a, b.drop_last());
    }
}

/// Connecting leaves the balancer alone.
proof fn lemma_connects(members: Set<Address>, attempts: Set<Address>, added: Seq<Address>)
    ensures
        members_after(members, connect_actions(added)) == members,
        attempts_after(attempts, connect_actions(added)) == attempts.union(added.to_set()),
    decreases added.len(),
{
    let actions = connect_actions(added);
    if added.len() == 0 {
        assert(attempts.union(added.to_set()) =~= attempts);
    } else {
        let before = added.drop_last();
        assert(actions.drop_last() =~= connect_actions(before));
        lemma_connects(members, attempts, before);
        lemma_last(added);
        assert(attempts.union(before.to_set()).insert(added.last()) =~= attempts.union(
            added.to_set(),
        ));
    }
}

/// The members of a list are those before the last one, and the last one.
proof fn lemma_last(s: Seq<Address>)
    requires
        s.len() > 0,
    ensures
        s.to_set() == s.drop_last().to_set().insert(s.last()),
{
    let before = s.drop_last();
    assert forall|a: Address| s.to_set().contains(a) == before.to_set().insert(s.last()).contains(
        a,
    ) by {
        if before.contains(a) {
            assert(s[before.index_of(a)] == a);
        }
        assert(s[s.len() - 1] == s.last());
        if s.contains(a) && a != s.last() {
            assert(before[s.index_of(a)] == a);
        }
    }
    assert(s.to_set() =~= before.to_set().insert(s.last()));
}

/// Letting go of endpoints takes them from the balancer and ends their attempts.
proof fn lemma_releases(
    inserted: Set<Address>,
    members: Set<Address>,
    attempts: Set<Address>,
    removed: Seq<Address>,
)
    ensures
        members_after(members, release_actions(inserted, removed)) == members.difference(
            removed.to_set().intersect(inserted),
        ),
        attempts_after(attempts, release_actions(inserted, removed)) == attempts.difference(
            removed.to_set(),
        ),
    decreases removed.len(),
{
    if removed.len() == 0 {
        assert(members.difference(removed.to_set().intersect(inserted)) =~= members);
        assert(attempts.difference(removed.to_set()) =~= attempts);
    } else {
        let before = removed.drop_last();
        let a = removed.last();
        let head = release_actions(inserted, before);
        let one = release_one(inserted, a);
        lemma_releases(inserted, members, attempts, before);
        lemma_concat(members, attempts, head, one);
        lemma_last(removed);
        let cancel = seq![EndpointActionView::Cancel(a)];
        reveal_with_fuel(members_after, 3);
        reveal_with_fuel(attempts_after, 3);
        if inserted.contains(a) {
            assert(one.drop_last() =~= cancel);
            assert(one.last() == EndpointActionView::Remove(a));
        } else {
            assert(one =~= cancel);
        }
        assert(cancel.drop_last() =~= Seq::<EndpointActionView>::empty());
        assert(members_after(members, release_actions(inserted, removed)) =~= members.difference(
            removed.to_set().intersect(inserted),
        ));
        assert(attempts_after(attempts, release_actions(inserted, removed)) =~= attempts.difference(
            removed.to_set(),
        ));
    }
}

/// The changes that follow a snapshot bring the balancer from the endpoints that
/// it had to those of them that are still wanted, and the attempts under way to
/// those for endpoints that are wanted and not connected.
pub proof fn law_snapshot_changes_replay(
    pre: DiffView,
    snapshot: Option<Set<Address>>,
    actions: Seq<EndpointActionView>,
)
    requires
        pre.wf(),
        snapshot_step(pre, snapshot, actions),
    ensures
        members_after(pre.inserted, actions) == pre.diffed(wanted_by(snapshot)).inserted,
        attempts_after(pre.connecting(), actions) == pre.diffed(
            wanted_by(snapshot),
        ).connecting(),
{
    let wanted = wanted_by(snapshot);
    let post = pre.diffed(wanted);
    match snapshot {
        Some(_) => {
            let (added, removed) = choose|added: Seq<Address>, removed: Seq<Address>|
                {
                    &&& #[trigger] lists(added, wanted.difference(pre.desired))
                    &&& #[trigger] lists(removed, pre.desired.difference(wanted))
                    &&& actions == connect_actions(added) + release_actions(pre.inserted, removed)
                };
            let connects = connect_actions(added);
            let releases = release_actions(pre.inserted, removed);
            lemma_concat(pre.inserted, pre.connecting(), connects, releases);
            lemma_connects(pre.inserted, pre.connecting(), added);
            lemma_releases(
                pre.inserted,
                pre.inserted,
                pre.connecting().union(added.to_set()),
                removed,
            );
            assert(members_after(pre.inserted, actions) =~= post.inserted);
            assert(attempts_after(pre.connecting(), actions) =~= post.connecting());
        },
        None => {
            let removed = choose|removed: Seq<Address>|
                {
                    &&& #[trigger] lists(removed, pre.desired)
                    &&& actions == release_actions(pre.inserted, removed) + seq![
                        EndpointActionView::Resubscribe,
                    ]
                };
            let releases = release_actions(pre.inserted, removed);
            let again = seq![EndpointActionView::Resubscribe];
            lemma_concat(pre.inserted, pre.connecting(), releases, again);
            lemma_releases(pre.inserted, pre.inserted, pre.connecting(), removed);
            reveal_with_fuel(members_after, 2);
            reveal_with_fuel(attempts_after, 2);
            assert(again.drop_last() =~= Seq::<EndpointActionView>::empty());
            assert(members_after(pre.inserted, actions) =~= post.inserted);
            assert(attempts_after(pre.connecting(), actions) =~= post.connecting());
        },
    }
}

/// What a list of releases holds.
proof fn lemma_release_contents(inserted: Set<Address>, removed: Seq<Address>)
    ensures
        forall|i: int|
            0 <= i < release_actions(inserted, removed).len() ==> match #[trigger] release_actions(
                inserted,
                removed,
            )[i] {
                EndpointActionView::Cancel(a) => removed.contains(a),
                EndpointActionView::Remove(a) => removed.contains(a) && inserted.contains(a),
                _ => false,
            },
    decreases removed.len(),
{
    if removed.len() > 0 {
        let before = removed.drop_last();
        let head = release_actions(inserted, before);
        let one = release_one(inserted, removed.last());
        lemma_release_contents(inserted, before);
        assert(removed[removed.len() - 1] == removed.last());
        assert forall|i: int| 0 <= i < release_actions(inserted, removed).len() implies (
        match #[trigger] release_actions(inserted, removed)[i] {
            EndpointActionView::Cancel(a) => removed.contains(a),
            EndpointActionView::Remove(a) => removed.contains(a) && inserted.contains(a),
            _ => false,
        }) by {
            assert forall|a: Address| before.contains(a) implies removed.contains(a) by {
                assert(removed[before.index_of(a)] == a);
            }
            if i < head.len() {
                assert(release_actions(inserted, removed)[i] == head[i]);
            } else {
                assert(release_actions(inserted, removed)[i] == one[i - head.len()]);
            }
        }
    }
}

/// A snapshot gives no endpoint to the balancer before it is connected, takes
/// only endpoints from it that it has, connects only to endpoints that are new
/// in it, and lets go only of endpoints that are gone from it: an endpoint that
/// stays wanted is left alone.
pub proof fn law_snapshot_touches_only_changes(
    pre: DiffView,
    snapshot: Option<Set<Address>>,
    actions: Seq<EndpointActionView>,
    i: int,
)
    requires
        snapshot_step(pre, snapshot, actions),
        0 <= i < actions.len(),
    ensures
        match actions[i] {
            EndpointActionView::Connect(a) => wanted_by(snapshot).contains(a)
                && !pre.desired.contains(a),
            EndpointActionView::Cancel(a) => pre.desired.contains(a) && !wanted_by(
                snapshot,
            ).contains(a),
            EndpointActionView::Remove(a) => pre.inserted.contains(a) && pre.desired.contains(a)
                && !wanted_by(snapshot).contains(a),
            EndpointActionView::Insert(_) => false,
            EndpointActionView::Resubscribe => snapshot is None && i == actions.len() - 1,
        },
{
    match snapshot {
        Some(wanted) => {
            let (added, removed) = choose|added: Seq<Address>, removed: Seq<Address>|
                {
                    &&& #[trigger] lists(added, wanted.difference(pre.desired))
                    &&& #[trigger] lists(removed, pre.desired.difference(wanted))
                    &&& actions == connect_actions(added) + release_actions(pre.inserted, removed)
                };
            lemma_release_contents(pre.inserted, removed);
            let k = added.len();
            if i < k {
                assert(added.to_set().contains(added[i]));
            } else {
                assert(actions[i] == release_actions(pre.inserted, removed)[i - k]);
                assert forall|a: Address| removed.contains(a) implies pre.desired.difference(
                    wanted,
                ).contains(a) by {
                    assert(removed.to_set().contains(a));
                }
            }
        },
        None => {
            let removed = choose|removed: Seq<Address>|
                {
                    &&& #[trigger] lists(removed, pre.desired)
                    &&& actions == release_actions(pre.inserted, removed) + seq![
                        EndpointActionView::Resubscribe,
                    ]
                };
            lemma_release_contents(pre.inserted, removed);
            if i < actions.len() - 1 {
                assert(actions[i] == release_actions(pre.inserted, removed)[i]);
                assert forall|a: Address| removed.contains(a) implies pre.desired.contains(a) by {
                    assert(removed.to_set().contains(a));
                }
            }
        },
    }
}

/// The endpoints are watched anew exactly once for each time that the cluster leaves
/// the configuration, after everything else, and never otherwise: neither a snapshot,
/// also an empty one, nor a connection leads to another watch.
pub proof fn law_resubscribes_once_per_removal(
    pre: DiffView,
    event: DiffEvent,
    actions: Seq<EndpointActionView>,
    post: DiffView,
)
    requires
        diff_step(pre, event, actions, post),
    ensures
        event == DiffEvent::Snapshot(None) ==> actions.len() > 0,
        forall|i: int|
            0 <= i < actions.len() ==> (#[trigger] actions[i] is Resubscribe <==> event
                == DiffEvent::Snapshot(None) && i == actions.len() - 1),
{
    if let DiffEvent::Snapshot(snapshot) = event {
        assert forall|i: int| 0 <= i < actions.len() implies (#[trigger] actions[i] is Resubscribe
            <==> snapshot is None && i == actions.len() - 1) by {
            law_snapshot_touches_only_changes(pre, snapshot, actions, i);
            if snapshot is None {
                let removed = choose|removed: Seq<Address>|
                    {
                        &&& #[trigger] lists(removed, pre.desired)
                        &&& actions == release_actions(pre.inserted, removed) + seq![
                            EndpointActionView::Resubscribe,
                        ]
                    };
                assert(actions.last() == EndpointActionView::Resubscribe);
            }
        }
    }
}

/// A snapshot of the endpoints wanted already changes nothing.
pub proof fn law_same_snapshot_changes_nothing(pre: DiffView, actions: Seq<EndpointActionView>)
    requires
        pre.wf(),
        snapshot_step(pre, Some(pre.desired), actions),
    ensures
        actions == Seq::<EndpointActionView>::empty(),
        pre.diffed(pre.desired) == pre,
{
    if actions.len() > 0 {
        law_snapshot_touches_only_changes(pre, Some(pre.desired), actions, 0);
    }
    assert(actions =~= Seq::<EndpointActionView>::empty());
    assert(pre.inserted.intersect(pre.desired) =~= pre.inserted);
}

/// A cluster that leaves the configuration has its balancer drained and is
/// watched anew; if its name comes back, all of its endpoints are connected to
/// from scratch.
pub proof fn law_drained_cluster_resolves_again(
    pre: DiffView,
    drain: Seq<EndpointActionView>,
    wanted: Set<Address>,
    refill: Seq<EndpointActionView>,
)
    requires
        pre.wf(),
        snapshot_step(pre, None, drain),
        snapshot_step(pre.diffed(Set::empty()), Some(wanted), refill),
    ensures
        drain.len() > 0,
        drain.last() == EndpointActionView::Resubscribe,
        members_after(pre.inserted, drain) == Set::<Address>::empty(),
        attempts_after(pre.connecting(), drain) == Set::<Address>::empty(),
        exists|added: Seq<Address>| #[trigger]
            lists(added, wanted) && refill == connect_actions(added),
{
    let drained = pre.diffed(Set::empty());
    law_snapshot_changes_replay(pre, None, drain);
    assert(drained.inserted =~= Set::<Address>::empty());
    assert(drained.connecting() =~= Set::<Address>::empty());
    let (added, removed) = choose|added: Seq<Address>, removed: Seq<Address>|
        {
            &&& #[trigger] lists(added, wanted.difference(drained.desired))
            &&& #[trigger] lists(removed, drained.desired.difference(wanted))
            &&& refill == connect_actions(added) + release_actions(drained.inserted, removed)
        };
    assert(wanted.difference(drained.desired) =~= wanted);
    assert(removed.len() == 0) by {
        if removed.len() > 0 {
            assert(removed.to_set().contains(removed[0]));
        }
    }
    assert(refill =~= connect_actions(added));
    assert(lists(added, wanted));
}

/// What happens to the endpoints of a cluster.
pub enum DiffEvent {
    /// A snapshot arrived, or the cluster left the configuration.
    Snapshot(Option<Set<Address>>),
    /// A connection stands.
    Connected(Address),
}

/// An event takes the diff from `pre` to `post` by way of `actions`.
pub open spec fn diff_step(
    pre: DiffView,
    event: DiffEvent,
    actions: Seq<EndpointActionView>,
    post: DiffView,
) -> bool {
    match event {
        DiffEvent::Snapshot(snapshot) => snapshot_step(pre, snapshot, actions) && post
            == pre.diffed(wanted_by(snapshot)),
        DiffEvent::Connected(a) => if pre.desired.contains(a) {
            post == (DiffView { inserted: pre.inserted.insert(a), ..pre }) && actions == seq![
                EndpointActionView::Insert(a),
            ]
        } else {
            post == pre && actions == Seq::<EndpointActionView>::empty()
        },
    }
}

/// The actions of several events, one after the other.
pub open spec fn joined(actions: Seq<Seq<EndpointActionView>>) -> Seq<EndpointActionView>
    decreases actions.len(),
{
    if actions.len() == 0 {
        Seq::empty()
    } else {
        joined(actions.drop_last()) + actions.last()
    }
}

/// A history of the diff: `states` one after the other from the start on, each led
/// to the next by an event.
pub open spec fn diff_history(
    states: Seq<DiffView>,
    events: Seq<DiffEvent>,
    actions: Seq<Seq<EndpointActionView>>,
) -> bool {
    &&& states.len() == events.len() + 1
    &&& actions.len() == events.len()
    &&& states[0] == DiffView::initial()
    &&& forall|k: int|
        0 <= k < events.len() ==> diff_step(
            states[k],
            #[trigger] events[k],
            actions[k],
            states[k + 1],
        )
}

/// At every point of every history, the changes sent so far leave the balancer
/// with exactly the endpoints noted as inserted, all of them wanted, and the
/// attempts under way are exactly those for wanted endpoints that are not
/// connected.
pub proof fn law_balancer_follows_snapshots(
    states: Seq<DiffView>,
    events: Seq<DiffEvent>,
    actions: Seq<Seq<EndpointActionView>>,
)
    requires
        diff_history(states, events, actions),
    ensures
        states.last().wf(),
        members_after(Set::empty(), joined(actions)) == states.last().inserted,
        attempts_after(Set::empty(), joined(actions)) == states.last().connecting(),
    decreases events.len(),
{
    let none = Set::<Address>::empty();
    if events.len() == 0 {
        assert(states.last().connecting() =~= none);
    } else {
        let k = events.len() - 1;
        let before = states.drop_last();
        let head = actions.drop_last();
        assert forall|j: int| 0 <= j < k implies diff_step(
            before[j],
            #[trigger] events.drop_last()[j],
            head[j],
            before[j + 1],
        ) by {
            assert(events.drop_last()[j] == events[j]);
        }
        law_balancer_follows_snapshots(before, events.drop_last(), head);
        let pre = before.last();
        let post = states.last();
        assert(diff_step(pre, events[k], actions[k], post));
        lemma_concat(none, none, joined(head), actions[k]);
        match events[k] {
            DiffEvent::Snapshot(snapshot) => {
                law_snapshot_changes_replay(pre, snapshot, actions[k]);
            },
            DiffEvent::Connected(a) => {
                reveal_with_fuel(members_after, 2);
                reveal_with_fuel(attempts_after, 2);
                if pre.desired.contains(a) {
                    assert(actions[k].drop_last() =~= Seq::<EndpointActionView>::empty());
                    assert(post.connecting() =~= pre.connecting().remove(a));
                }
            },
        }
    }
}

/// An attempt for `a`, begun by the event `j` when the endpoint became wanted, is the
/// latest one before the event `k`: the endpoint has been wanted ever since.
pub open spec fn begun(
    states: Seq<DiffView>,
    actions: Seq<Seq<EndpointActionView>>,
    a: Address,
    j: int,
    k: int,
) -> bool {
    &&& 0 <= j < k
    &&& !states[j].desired.contains(a)
    &&& actions[j].contains(EndpointActionView::Connect(a))
    &&& forall|i: int| j < i <= k ==> (#[trigger] states[i]).desired.contains(a)
}

/// No attempt for `a` was given up or completed by the events between `j` and `k`.
pub open spec fn under_way(
    actions: Seq<Seq<EndpointActionView>>,
    a: Address,
    j: int,
    k: int,
) -> bool {
    forall|i: int|
        j < i < k ==> !(#[trigger] actions[i]).contains(EndpointActionView::Cancel(a))
            && !actions[i].contains(EndpointActionView::Insert(a))
}

/// For every wanted endpoint an attempt was begun when it last became wanted, and as
/// long as it is not connected that attempt is under way.
proof fn lemma_attempt_begun(
    states: Seq<DiffView>,
    events: Seq<DiffEvent>,
    actions: Seq<Seq<EndpointActionView>>,
    a: Address,
    k: int,
) -> (j: int)
    requires
        diff_history(states, events, actions),
        0 <= k <= events.len(),
        states[k].desired.contains(a),
    ensures
        begun(states, actions, a, j, k),
        !states[k].inserted.contains(a) ==> under_way(actions, a, j, k),
    decreases k,
{
    let pre = states[k - 1];
    let post = states[k];
    let list = actions[k - 1];
    assert(diff_step(pre, events[k - 1], list, post));
    if pre.desired.contains(a) {
        let j = lemma_attempt_begun(states, events, actions, a, k - 1);
        assert forall|i: int| j < i <= k implies (#[trigger] states[i]).desired.contains(a) by {}
        if !post.inserted.contains(a) {
            assert(!pre.inserted.contains(a));
            assert forall|i: int| j < i < k implies !(#[trigger] actions[i]).contains(
                EndpointActionView::Cancel(a),
            ) && !actions[i].contains(EndpointActionView::Insert(a)) by {
                if i == k - 1 {
                    lemma_wanted_is_left_alone(pre, events[i], list, post, a);
                }
            }
        }
        j
    } else {
        match events[k - 1] {
            DiffEvent::Snapshot(Some(wanted)) => {
                let (added, removed) = choose|added: Seq<Address>, removed: Seq<Address>|
                    {
                        &&& #[trigger] lists(added, wanted.difference(pre.desired))
                        &&& #[trigger] lists(removed, pre.desired.difference(wanted))
                        &&& list == connect_actions(added) + release_actions(pre.inserted, removed)
                    };
                assert(added.to_set().contains(a));
                let x = added.index_of(a);
                assert(added[x] == a);
                assert(list[x] == EndpointActionView::Connect(a));
            },
            _ => {},
        }
        k - 1
    }
}

/// An event that leaves an endpoint wanted and not inserted gives up no attempt for
/// it and completes none.
proof fn lemma_wanted_is_left_alone(
    pre: DiffView,
    event: DiffEvent,
    actions: Seq<EndpointActionView>,
    post: DiffView,
    a: Address,
)
    requires
        diff_step(pre, event, actions, post),
        post.desired.contains(a),
        !post.inserted.contains(a),
    ensures
        !actions.contains(EndpointActionView::Cancel(a)),
        !actions.contains(EndpointActionView::Insert(a)),
{
    assert forall|i: int| 0 <= i < actions.len() implies #[trigger] actions[i]
        != EndpointActionView::Cancel(a) && actions[i] != EndpointActionView::Insert(a) by {
        if let DiffEvent::Snapshot(snapshot) = event {
            law_snapshot_touches_only_changes(pre, snapshot, actions, i);
        }
    }
}

/// Connections complete only for attempts that are under way.
pub open spec fn only_attempts_complete(states: Seq<DiffView>, events: Seq<DiffEvent>) -> bool {
    forall|k: int|
        0 <= k < events.len() ==> ((#[trigger] events[k]) matches DiffEvent::Connected(a)
            ==> states[k].connecting().contains(a))
}

/// In every history in which connections complete only for attempts under way, the
/// balancer is given an endpoint only when its connection completes, only if it is
/// wanted and not there yet, and only by an attempt that was begun when the endpoint
/// last became wanted and has been under way since; and only endpoints that are
/// there are taken from it.
pub proof fn law_inserts_answer_attempts(
    states: Seq<DiffView>,
    events: Seq<DiffEvent>,
    actions: Seq<Seq<EndpointActionView>>,
    k: int,
    i: int,
)
    requires
        diff_history(states, events, actions),
        only_attempts_complete(states, events),
        0 <= k < events.len(),
        0 <= i < actions[k].len(),
    ensures
        match actions[k][i] {
            EndpointActionView::Insert(a) => {
                &&& events[k] == DiffEvent::Connected(a)
                &&& states[k].desired.contains(a)
                &&& !states[k].inserted.contains(a)
                &&& exists|j: int| #[trigger]
                    begun(states, actions, a, j, k) && under_way(actions, a, j, k)
            },
            EndpointActionView::Remove(a) => states[k].inserted.contains(a),
            _ => true,
        },
{
    assert(diff_step(states[k], events[k], actions[k], states[k + 1]));
    match events[k] {
        DiffEvent::Snapshot(snapshot) => {
            law_snapshot_touches_only_changes(states[k], snapshot, actions[k], i);
        },
        DiffEvent::Connected(a) => {
            let j = lemma_attempt_begun(states, events, actions, a, k);
            assert(begun(states, actions, a, j, k) && under_way(actions, a, j, k));
        },
    }
}

/// The address is that of a healthy endpoint of some locality of the snapshot.
pub open spec fn is_wanted(snapshot: Option<&EndpointsResource>, a: Address) -> bool {
    match snapshot {
        Some(endpoints) => exists|l: int, i: int|
            0 <= l < endpoints.localities@.len() && 0 <= i
                < endpoints.localities@[l].endpoints@.len() && (
            #[trigger] endpoints.localities@[l].endpoints@[i]).health_status
                == HealthStatus::Healthy && endpoints.localities@[l].endpoints@[i].address@ == a,
        None => false,
    }
}

/// Letting go of endpoints cancels each of them once, and right after that takes it from
/// the balancer if it was there.
proof fn lemma_release_exact(inserted: Set<Address>, removed: Seq<Address>)
    requires
        removed.no_duplicates(),
    ensures
        ({
            let actions = release_actions(inserted, removed);
            &&& forall|a: Address| #[trigger]
                removed.contains(a) ==> actions.contains(EndpointActionView::Cancel(a)) && (
                inserted.contains(a) ==> actions.contains(EndpointActionView::Remove(a)))
            &&& actions.no_duplicates()
            &&& forall|j: int|
                0 <= j < actions.len() ==> (
                #[trigger] actions[j] matches EndpointActionView::Remove(a) ==> j > 0 && actions[j - 1] == EndpointActionView::Cancel(a))
        }),
    decreases removed.len(),
{
    if removed.len() > 0 {
        let before = removed.drop_last();
        let a = removed.last();
        let head = release_actions(inserted, before);
        let one = release_one(inserted, a);
        let actions = release_actions(inserted, removed);
        lemma_release_exact(inserted, before);
        lemma_release_contents(inserted, before);
        assert(!before.contains(a)) by {
            if before.contains(a) {
                assert(removed[before.index_of(a)] == removed[removed.len() - 1]);
            }
        }
        assert forall|x: EndpointActionView| head.contains(x) implies actions.contains(x) by {
            assert(actions[head.index_of(x)] == x);
        }
        assert(actions[head.len() as int] == EndpointActionView::Cancel(a));
        if inserted.contains(a) {
            assert(actions[(head.len() + 1) as int] == EndpointActionView::Remove(a));
        }
        assert forall|b: Address| #[trigger] removed.contains(b) implies actions.contains(
            EndpointActionView::Cancel(b),
        ) && (inserted.contains(b) ==> actions.contains(EndpointActionView::Remove(b))) by {
            if b != a {
                assert(before[removed.index_of(b)] == b);
                assert(before.contains(b));
            }
        }
        assert forall|i: int, j: int| 0 <= i < j < actions.len() implies actions[i]
            != actions[j] by {
            if j < head.len() {
                assert(head[i] != head[j]);
            } else if i < head.len() {
                assert(actions[i] == head[i]);
                assert(actions[j] == one[j - head.len()]);
            }
        }
        assert forall|j: int| 0 <= j < actions.len() implies (
        #[trigger] actions[j] matches EndpointActionView::Remove(b) ==> j > 0 && actions[j - 1]
            == EndpointActionView::Cancel(b)) by {
            if j < head.len() {
                assert(actions[j] == head[j]);
                if head[j] is Remove {
                    assert(actions[j - 1] == head[j - 1]);
                }
            } else {
                assert(actions[j] == one[j - head.len()]);
            }
        }
    }
}

/// After a snapshot exactly the healthy endpoints of all of its localities are wanted,
/// and the balancer keeps exactly those of them that it has; without one, when the
/// cluster left the configuration, nothing is wanted and nothing is kept. Exactly the
/// endpoints that became wanted are connected to; exactly those that are no longer
/// wanted are cancelled and, if they are there, taken from the balancer right after.
/// Attempts are begun first, each thing is done once, and the cluster is watched anew,
/// last, exactly if there was no snapshot.
pub proof fn law_snapshot_is_followed_exactly(
    pre: DiffView,
    snapshot: Option<&EndpointsResource>,
    post: DiffView,
    actions: Seq<EndpointActionView>,
)
    requires
        pre.wf(),
        post == pre.diffed(wanted_by(healthy_in(snapshot))),
        snapshot_step(pre, healthy_in(snapshot), actions),
    ensures
        forall|a: Address| #[trigger] post.desired.contains(a) <==> is_wanted(snapshot, a),
        forall|a: Address| #[trigger]
            post.inserted.contains(a) <==> pre.inserted.contains(a) && is_wanted(snapshot, a),
        forall|a: Address| #[trigger]
            actions.contains(EndpointActionView::Connect(a)) <==> is_wanted(snapshot, a)
                && !pre.desired.contains(a),
        forall|a: Address| #[trigger]
            actions.contains(EndpointActionView::Cancel(a)) <==> pre.desired.contains(a)
                && !is_wanted(snapshot, a),
        forall|a: Address| #[trigger]
            actions.contains(EndpointActionView::Remove(a)) <==> pre.inserted.contains(a)
                && !is_wanted(snapshot, a),
        forall|a: Address| !#[trigger] actions.contains(EndpointActionView::Insert(a)),
        actions.contains(EndpointActionView::Resubscribe) <==> snapshot is None,
        snapshot is None ==> actions.last() is Resubscribe,
        actions.no_duplicates(),
        forall|i: int, j: int|
            0 <= i < j < actions.len() ==> (#[trigger] actions[j] is Connect
                ==> #[trigger] actions[i] is Connect),
        forall|j: int|
            0 <= j < actions.len() ==> (#[trigger] actions[j] matches EndpointActionView::Remove(a)
                ==> j > 0 && actions[j - 1] == EndpointActionView::Cancel(a)),
{
    let healthy = healthy_in(snapshot);
    let wanted = wanted_by(healthy);
    assert forall|a: Address|
        #![trigger is_wanted(snapshot, a)]
        #![trigger wanted.contains(a)]
        is_wanted(snapshot, a) == wanted.contains(a) by {
        if let Some(endpoints) = snapshot {
            law_healthy_addresses_are_those_of_healthy_endpoints(*endpoints, a);
        }
    }
    let (added, removed, last) = match snapshot {
        Some(_) => {
            let (added, removed) = choose|added: Seq<Address>, removed: Seq<Address>|
                {
                    &&& #[trigger] lists(added, wanted.difference(pre.desired))
                    &&& #[trigger] lists(removed, pre.desired.difference(wanted))
                    &&& actions == connect_actions(added) + release_actions(pre.inserted, removed)
                };
            (added, removed, Seq::<EndpointActionView>::empty())
        },
        None => {
            let removed = choose|removed: Seq<Address>|
                {
                    &&& #[trigger] lists(removed, pre.desired)
                    &&& actions == release_actions(pre.inserted, removed) + seq![
                        EndpointActionView::Resubscribe,
                    ]
                };
            (Seq::<Address>::empty(), removed, seq![EndpointActionView::Resubscribe])
        },
    };
    let connects = connect_actions(added);
    let releases = release_actions(pre.inserted, removed);
    assert(actions =~= connects + releases + last);
    lemma_release_exact(pre.inserted, removed);
    lemma_release_contents(pre.inserted, removed);
    assert forall|a: Address| #[trigger] added.contains(a) == (wanted.contains(a)
        && !pre.desired.contains(a)) by {
        assert(added.to_set().contains(a) == added.contains(a));
    }
    assert forall|a: Address| #[trigger] removed.contains(a) == (pre.desired.contains(a)
        && !wanted.contains(a)) by {
        assert(removed.to_set().contains(a) == removed.contains(a));
    }
    let c = connects.len() as int;
    let d = releases.len() as int;
    assert forall|i: int| 0 <= i < actions.len() implies #[trigger] actions[i] == (if i < c {
        connects[i]
    } else if i < c + d {
        releases[i - c]
    } else {
        last[i - c - d]
    }) by {}
    assert forall|x: EndpointActionView| releases.contains(x) implies actions.contains(x) by {
        assert(actions[c + releases.index_of(x)] == x);
    }
    assert forall|a: Address| #[trigger] actions.contains(EndpointActionView::Connect(a))
        <==> added.contains(a) by {
        if added.contains(a) {
            assert(actions[added.index_of(a)] == EndpointActionView::Connect(a));
        }
        if actions.contains(EndpointActionView::Connect(a)) {
            let i = actions.index_of(EndpointActionView::Connect(a));
            assert(actions[i] == EndpointActionView::Connect(a));
            assert(i < c);
            assert(added[i] == a);
        }
    }
    assert forall|a: Address| #[trigger] actions.contains(EndpointActionView::Cancel(a))
        <==> removed.contains(a) by {
        if actions.contains(EndpointActionView::Cancel(a)) {
            let i = actions.index_of(EndpointActionView::Cancel(a));
            assert(actions[i] == EndpointActionView::Cancel(a));
            assert(releases[i - c] == EndpointActionView::Cancel(a));
        }
    }
    assert forall|a: Address| #[trigger] actions.contains(EndpointActionView::Remove(a))
        <==> removed.contains(a) && pre.inserted.contains(a) by {
        if actions.contains(EndpointActionView::Remove(a)) {
            let i = actions.index_of(EndpointActionView::Remove(a));
            assert(actions[i] == EndpointActionView::Remove(a));
            assert(releases[i - c] == EndpointActionView::Remove(a));
        }
    }
    assert forall|a: Address| pre.inserted.contains(a) implies pre.desired.contains(a) by {}
    assert forall|a: Address| !#[trigger] actions.contains(EndpointActionView::Insert(a)) by {
        if actions.contains(EndpointActionView::Insert(a)) {
            let i = actions.index_of(EndpointActionView::Insert(a));
            assert(actions[i] == EndpointActionView::Insert(a));
        }
    }
    if actions.contains(EndpointActionView::Resubscribe) {
        let i = actions.index_of(EndpointActionView::Resubscribe);
        assert(actions[i] == EndpointActionView::Resubscribe);
    }
    if snapshot is None {
        assert(actions[c + d] == EndpointActionView::Resubscribe);
    }
    assert forall|i: int, j: int| 0 <= i < j < actions.len() implies actions[i] != actions[j] by {
        if j < c {
            assert(added[i] != added[j]);
        } else if i >= c && j < c + d {
            assert(releases[i - c] != releases[j - c]);
        }
    }
    assert forall|j: int| 0 <= j < actions.len() implies (
    #[trigger] actions[j] matches EndpointActionView::Remove(a) ==> j > 0 && actions[j - 1]
        == EndpointActionView::Cancel(a)) by {
        if actions[j] is Remove {
            assert(releases[j - c] == actions[j]);
            assert(actions[j - 1] == releases[j - 1 - c]);
        }
    }
}

/// Before the first snapshot nothing is wanted and the balancer is empty.
pub proof fn law_initial_diff_is_empty(a: Address)
    ensures
        !DiffView::initial().desired.contains(a),
        !DiffView::initial().inserted.contains(a),
{
}

/// Connecting is under way exactly for the endpoints that are wanted and not there.
pub proof fn law_connecting_is_wanted_and_not_there(view: DiffView, a: Address)
    ensures
        view.connecting().contains(a) <==> view.desired.contains(a) && !view.inserted.contains(a),
{
}

} // verus!
