//! Laws of the cascade.

use crate::cascade::{
    cds_fits, cds_step, config_fits, earliest, eds_actions, event_fits, lds_fits, lds_step,
    lemma_reconciled, rds_step, removal_step, stepped, ActionView, CascadeEvent, CascadeView,
    ResourceEvent, CLUSTER_REMOVAL_GRACE,
};
use crate::keyed::lists;
use crate::numbering::{lemma_absent, lemma_number_all};
use crate::resource::{
    distinct, lemma_distinct, ClusterResource, EndpointsResource, ListenerResource,
    RouteConfigResource, RouteSource,
};
use vstd::prelude::*;

verus! {

/// A watched cluster that is not in a new configuration, and was not on its way
/// out yet, is to be torn down when the grace period from now is over; until
/// then its watches stay.
pub proof fn law_removal_starts_grace(
    pre: CascadeView,
    config: RouteConfigResource,
    now: u128,
    n: Seq<char>,
)
    requires
        pre.wf(),
        config_fits(pre, config, now),
        pre.cds.contains_key(n),
        !pre.pending.contains_key(n),
        !config.clusters().contains(n),
    ensures
        pre.with_config(config, now).pending.contains_key(n),
        pre.with_config(config, now).pending[n] == now + CLUSTER_REMOVAL_GRACE,
        pre.with_config(config, now).cds.contains_key(n),
        pre.with_config(config, now).cds[n] == pre.cds[n],
        pre.with_config(config, now).eds == pre.eds,
        pre.with_config(config, now).eds_names == pre.eds_names,
{
    lemma_with_config(pre, config, now);
    assert(pre.with_config(config, now).cds.dom().contains(n));
    assert(pre.with_config(config, now).pending.contains_key(n));
}

/// Repeated configurations without a cluster do not push the time of its
/// teardown out.
pub proof fn law_repeated_removal_keeps_deadline(
    pre: CascadeView,
    config: RouteConfigResource,
    now: u128,
    n: Seq<char>,
)
    requires
        pre.wf(),
        config_fits(pre, config, now),
        pre.pending.contains_key(n),
        !config.clusters().contains(n),
    ensures
        pre.with_config(config, now).pending.contains_key(n),
        pre.with_config(config, now).pending[n] == pre.pending[n],
{
    lemma_with_config(pre, config, now);
    assert(pre.with_config(config, now).pending.contains_key(n));
}

/// A cluster that re-enters the configuration before its teardown is not torn
/// down, and keeps its watches.
pub proof fn law_reentry_cancels_removal(
    pre: CascadeView,
    config: RouteConfigResource,
    now: u128,
    n: Seq<char>,
)
    requires
        pre.wf(),
        config_fits(pre, config, now),
        pre.cds.contains_key(n),
        config.clusters().contains(n),
    ensures
        !pre.with_config(config, now).pending.contains_key(n),
        pre.with_config(config, now).cds.contains_key(n),
        pre.with_config(config, now).cds[n] == pre.cds[n],
        pre.with_config(config, now).eds == pre.eds,
        pre.with_config(config, now).eds_names == pre.eds_names,
        forall|i: int|
            0 <= i < pre.reconcile_actions(config).len() ==> !(#[trigger] pre.reconcile_actions(
                config,
            )[i] matches ActionView::WatchCluster { cluster, .. } && cluster == n),
{
    lemma_with_config(pre, config, now);
    assert(pre.with_config(config, now).cds.dom().contains(n));
    let names = distinct(config.references());
    let fresh = pre.unwatched(names);
    lemma_distinct(config.references());
    lemma_absent(pre.cds, names);
    assert(!fresh.contains(n));
    assert forall|i: int| 0 <= i < pre.reconcile_actions(config).len() implies !(
    #[trigger] pre.reconcile_actions(config)[i] matches ActionView::WatchCluster { cluster, .. }
        && cluster == n) by {
        if i >= 2 {
            assert(fresh.contains(fresh[i - 2]));
        }
    }
}

/// After a configuration came into force, each of its clusters is watched and
/// none of them is on its way out, and a cluster that was not watched before
/// gets a watch that was never used.
pub proof fn law_configured_clusters_are_watched(
    pre: CascadeView,
    config: RouteConfigResource,
    now: u128,
    n: Seq<char>,
)
    requires
        pre.wf(),
        config_fits(pre, config, now),
        config.clusters().contains(n),
    ensures
        pre.with_config(config, now).cds.contains_key(n),
        !pre.with_config(config, now).pending.contains_key(n),
        !pre.cds.contains_key(n) ==> pre.next_watch <= pre.with_config(config, now).cds[n],
{
    lemma_with_config(pre, config, now);
    assert(pre.with_config(config, now).cds.dom().contains(n));
}

/// A configuration is published after the clients of its clusters have been
/// asked for, and before any watch is registered.
pub proof fn law_clients_then_publication_then_watches(
    pre: CascadeView,
    config: RouteConfigResource,
)
    ensures
        pre.reconcile_actions(config).len() >= 2,
        pre.reconcile_actions(config)[0] matches ActionView::AddClusters(names)
            && names.to_set() == config.clusters(),
        pre.reconcile_actions(config)[1] == ActionView::PublishRouteConfig(config),
        forall|i: int|
            2 <= i < pre.reconcile_actions(config).len() ==> #[trigger] pre.reconcile_actions(
                config,
            )[i] is WatchCluster,
{
    lemma_distinct(config.references());
}

/// An error leaves every level as it is: the resources last delivered stay in
/// force.
pub proof fn law_errors_preserve_state(
    pre: CascadeView,
    listener: ResourceEvent<ListenerResource>,
    config: ResourceEvent<RouteConfigResource>,
    n: Seq<char>,
    cluster: ResourceEvent<ClusterResource>,
    endpoints: ResourceEvent<EndpointsResource>,
    now: u128,
)
    requires
        listener.resource() is None,
        config.resource() is None,
        cluster.resource() is None,
        endpoints.resource() is None,
    ensures
        lds_step(pre, listener, now) == (pre, seq![ActionView::Acknowledge]),
        rds_step(pre, config, now) == (pre, seq![ActionView::Acknowledge]),
        cds_step(pre, n, cluster) == (pre, seq![ActionView::Acknowledge]),
        eds_actions(n, endpoints) == seq![ActionView::Acknowledge],
{
}

/// The event is one that a watch delivered.
pub open spec fn delivered(event: CascadeEvent) -> bool {
    match event {
        CascadeEvent::Lds(e) => e is Some,
        CascadeEvent::Rds(e) => e is Some,
        CascadeEvent::Removal => false,
        CascadeEvent::Cds(_, e) => e is Some,
        CascadeEvent::Eds(_, e) => e is Some,
    }
}

/// What a watch delivers is acknowledged exactly once, after everything that it
/// leads to, in particular after the watches of the next level have been
/// registered.
pub proof fn law_acknowledged_last(
    pre: CascadeView,
    event: CascadeEvent,
    now: u128,
    post: CascadeView,
    actions: Option<Seq<ActionView>>,
)
    requires
        delivered(event),
        stepped(pre, event, now, post, actions),
    ensures
        actions is Some,
        actions->0.len() >= 1,
        forall|i: int|
            0 <= i < actions->0.len() ==> (#[trigger] actions->0[i] is Acknowledge <==> i
                == actions->0.len() - 1),
{
    let list = actions->0;
    assert forall|i: int| 0 <= i < list.len() implies (#[trigger] list[i] is Acknowledge <==> i
        == list.len() - 1) by {
        match event {
            CascadeEvent::Lds(Some(e)) => {},
            CascadeEvent::Rds(Some(e)) => {},
            CascadeEvent::Cds(cluster, Some(e)) => {},
            CascadeEvent::Eds(cluster, Some(e)) => {},
            _ => {},
        }
    }
}

/// No two watches share a number.
pub open spec fn watches_distinct(view: CascadeView) -> bool {
    &&& forall|m: Seq<char>, n: Seq<char>|
        #![trigger view.cds.contains_key(m), view.cds.contains_key(n)]
        view.cds.contains_key(m) && view.cds.contains_key(n) && view.cds[m] == view.cds[n] ==> m
            == n
    &&& forall|m: Seq<char>, n: Seq<char>|
        #![trigger view.eds.contains_key(m), view.eds.contains_key(n)]
        view.eds.contains_key(m) && view.eds.contains_key(n) && view.eds[m] == view.eds[n] ==> m
            == n
    &&& forall|m: Seq<char>, n: Seq<char>|
        #![trigger view.cds.contains_key(m), view.eds.contains_key(n)]
        view.cds.contains_key(m) && view.eds.contains_key(n) ==> view.cds[m] != view.eds[n]
    &&& view.rds matches Some((_, watch)) ==> {
        &&& forall|n: Seq<char>| #[trigger] view.cds.contains_key(n) ==> view.cds[n] != watch
        &&& forall|n: Seq<char>| #[trigger] view.eds.contains_key(n) ==> view.eds[n] != watch
    }
}

/// A configuration coming into force gives no two watches the same number.
proof fn lemma_with_config_distinct(pre: CascadeView, config: RouteConfigResource, now: u128)
    requires
        pre.wf(),
        watches_distinct(pre),
        config_fits(pre, config, now),
    ensures
        watches_distinct(pre.with_config(config, now)),
{
    let post = pre.with_config(config, now);
    let names = distinct(config.references());
    let fresh = pre.unwatched(names);
    lemma_with_config(pre, config, now);
    lemma_distinct(config.references());
    lemma_absent(pre.cds, names);
    lemma_number_all(pre.cds, fresh, pre.next_watch);
    assert forall|n: Seq<char>| #[trigger] post.cds.contains_key(n) implies (
    pre.cds.contains_key(n) && post.cds[n] == pre.cds[n]) || (!pre.cds.contains_key(n)
        && fresh.contains(n) && post.cds[n] == pre.next_watch + fresh.index_of(n)) by {
        assert(post.cds.dom().contains(n));
        if !pre.cds.contains_key(n) {
            assert(fresh.to_set().contains(n));
            assert(fresh[fresh.index_of(n)] == n);
        }
    }
    assert forall|m: Seq<char>, n: Seq<char>|
        #![trigger post.cds.contains_key(m), post.cds.contains_key(n)]
        post.cds.contains_key(m) && post.cds.contains_key(n) && post.cds[m]
            == post.cds[n] implies m == n by {
        if !pre.cds.contains_key(m) && !pre.cds.contains_key(n) {
            assert(fresh[fresh.index_of(m)] == m);
            assert(fresh[fresh.index_of(n)] == n);
        }
    }
}

/// The cascade ends exactly when the listener's watch closes: no error, no
/// teardown and no other closed watch ends it.
pub proof fn law_only_closed_listener_ends_cascade(
    pre: CascadeView,
    event: CascadeEvent,
    now: u128,
    post: CascadeView,
    actions: Option<Seq<ActionView>>,
)
    requires
        stepped(pre, event, now, post, actions),
    ensures
        actions is None <==> event matches CascadeEvent::Lds(None),
{
}

/// The listener is watched once, at the start: no event leads to another watch of
/// it.
pub proof fn law_listener_is_watched_once(
    pre: CascadeView,
    event: CascadeEvent,
    now: u128,
    post: CascadeView,
    actions: Seq<ActionView>,
    i: int,
)
    requires
        stepped(pre, event, now, post, Some(actions)),
        0 <= i < actions.len(),
    ensures
        !(actions[i] is WatchListener),
{
    match event {
        CascadeEvent::Removal => {
            if pre.due(now) != Set::<Seq<char>>::empty() {
                let order = choose|order: Seq<Seq<char>>| #[trigger]
                    lists(order, pre.due(now)) && actions == pre.teardown(order) + seq![
                        ActionView::EvictClusters(post.cds.dom()),
                    ];
                lemma_teardown_drops(pre, order);
                if i < pre.teardown(order).len() {
                    assert(actions[i] == pre.teardown(order)[i]);
                    assert(drops(pre.teardown(order)[i]));
                }
            }
        },
        CascadeEvent::Lds(Some(e)) => {},
        CascadeEvent::Rds(Some(e)) => {},
        CascadeEvent::Cds(cluster, Some(e)) => {},
        _ => {},
    }
}

/// An action that ends a watch or drops something from the cache.
pub open spec fn drops(action: ActionView) -> bool {
    match action {
        ActionView::DropClusterWatch(_) => true,
        ActionView::DropEndpointsWatch(_) => true,
        ActionView::RemoveCluster(_) => true,
        ActionView::RemoveEndpoints(_) => true,
        _ => false,
    }
}

/// Tearing clusters down only drops.
pub proof fn lemma_teardown_drops(pre: CascadeView, order: Seq<Seq<char>>)
    ensures
        forall|i: int|
            0 <= i < pre.teardown(order).len() ==> drops(#[trigger] pre.teardown(order)[i]),
    decreases order.len(),
{
    if order.len() > 0 {
        let head = pre.teardown(order.drop_last());
        let tail = pre.teardown_one(order.last());
        lemma_teardown_drops(pre, order.drop_last());
        assert forall|i: int| 0 <= i < pre.teardown(order).len() implies drops(
            #[trigger] pre.teardown(order)[i],
        ) by {
            if i < head.len() {
                assert(pre.teardown(order)[i] == head[i]);
            } else {
                assert(pre.teardown(order)[i] == tail[i - head.len()]);
            }
        }
    }
}

/// A route configuration whose watch closed is forgotten, and nothing else is;
/// until a listener comes none is watched.
pub proof fn law_closed_route_config_is_forgotten(
    pre: CascadeView,
    event: CascadeEvent,
    now: u128,
    post: CascadeView,
    actions: Option<Seq<ActionView>>,
)
    requires
        stepped(pre, event, now, post, actions),
    ensures
        event matches CascadeEvent::Rds(None) ==> post == (CascadeView { rds: None, ..pre })
            && actions == Some(pre.drop_rds()),
        pre.rds is None && !(event is Lds) ==> post.rds is None,
{
}

/// A listener that refers to a route configuration while none is watched, also
/// to one whose watch closed before, has it watched under a new number.
pub proof fn law_unwatched_route_config_is_watched_again(
    pre: CascadeView,
    event: ResourceEvent<ListenerResource>,
    name: String,
    now: u128,
)
    requires
        pre.wf(),
        pre.rds is None,
        lds_fits(pre, event, now),
        event.resource() matches Some(listener) && listener.route_source == RouteSource::Rds(name),
    ensures
        lds_step(pre, event, now).0 == (CascadeView {
            rds: Some((name@, pre.next_watch as u64)),
            next_watch: pre.next_watch + 1,
            ..pre
        }),
        lds_step(pre, event, now).1 == seq![
            ActionView::WatchRouteConfig { name: name@, watch: pre.next_watch as u64 },
            ActionView::Acknowledge,
        ],
{
    assert(lds_step(pre, event, now).1 =~= seq![
        ActionView::WatchRouteConfig { name: name@, watch: pre.next_watch as u64 },
        ActionView::Acknowledge,
    ]);
}

/// A configuration that a listener carries inline leads to the same as one that
/// is delivered by itself, but for the watch of a route configuration, which the
/// inline one ends and the other leaves alone.
pub proof fn law_inline_and_delivered_configs_agree(
    pre: CascadeView,
    config: RouteConfigResource,
    inline: ResourceEvent<ListenerResource>,
    delivered: ResourceEvent<RouteConfigResource>,
    now: u128,
)
    requires
        inline.resource() matches Some(listener) && listener.route_source == RouteSource::Inline(
            config,
        ),
        delivered.resource() == Some(config),
    ensures
        lds_step(pre, inline, now).0 == (CascadeView {
            rds: None,
            ..rds_step(pre, delivered, now).0
        }),
        rds_step(pre, delivered, now).0.rds == pre.rds,
        lds_step(pre, inline, now).1 == pre.drop_rds() + rds_step(pre, delivered, now).1,
{
    assert(lds_step(pre, inline, now).1 =~= pre.drop_rds() + rds_step(pre, delivered, now).1);
}

/// The watched clusters are the routed ones and those on their way out, and no
/// cluster is both.
pub open spec fn partitioned(view: CascadeView, routed: Set<Seq<char>>) -> bool {
    &&& view.cds.dom() == routed.union(view.pending.dom())
    &&& view.pending.dom().disjoint(routed)
}

/// A configuration that comes into force adds its clusters to the watched ones and
/// takes none from them; if only watched clusters were on their way out before,
/// every watched cluster is then either in the configuration or on its way out,
/// and never both.
pub proof fn law_config_partitions_watched_clusters(
    pre: CascadeView,
    config: RouteConfigResource,
    now: u128,
)
    requires
        pre.wf(),
        config_fits(pre, config, now),
        pre.pending.dom().subset_of(pre.cds.dom()),
    ensures
        pre.with_config(config, now).cds.dom() == pre.cds.dom().union(config.clusters()),
        partitioned(pre.with_config(config, now), config.clusters()),
{
    let post = pre.with_config(config, now);
    lemma_with_config(pre, config, now);
    assert forall|n: Seq<char>| post.pending.dom().contains(n) == (pre.cds.dom().contains(n)
        && !config.clusters().contains(n)) by {
        assert(post.pending.contains_key(n) == (!config.clusters().contains(n) && (
        pre.pending.contains_key(n) || pre.cds.contains_key(n))));
        assert(pre.pending.dom().contains(n) ==> pre.cds.dom().contains(n));
    }
    assert(post.cds.dom() =~= config.clusters().union(post.pending.dom()));
}

/// Every event keeps the state well-formed and the numbers of its watches
/// distinct, and never takes a number back.
pub proof fn law_steps_preserve_wf(
    pre: CascadeView,
    event: CascadeEvent,
    now: u128,
    post: CascadeView,
    actions: Option<Seq<ActionView>>,
)
    requires
        pre.wf(),
        watches_distinct(pre),
        event_fits(pre, event, now),
        stepped(pre, event, now, post, actions),
    ensures
        post.wf(),
        watches_distinct(post),
        pre.next_watch <= post.next_watch,
{
    lemma_config_steps(pre, event, now);
    if let Some(config) = config_in(event) {
        lemma_with_config_distinct(pre, config, now);
    }
    match event {
        CascadeEvent::Cds(_, None) | CascadeEvent::Eds(_, None) | CascadeEvent::Removal => {
            assert forall|n: Seq<char>| #[trigger] post.cds.contains_key(n) implies post.cds[n]
                < post.next_watch by {
                assert(pre.cds.contains_key(n));
            }
            assert forall|n: Seq<char>| #[trigger] post.eds.contains_key(n) implies post.eds[n]
                < post.next_watch && post.eds_names.contains_key(n) by {
                assert(pre.eds.contains_key(n));
            }
        },
        _ => {},
    }
}

/// The configuration that an event puts in force, if it does.
pub open spec fn config_in(event: CascadeEvent) -> Option<RouteConfigResource> {
    match event {
        CascadeEvent::Lds(Some(e)) => match e.resource() {
            Some(listener) => match listener.route_source {
                RouteSource::Inline(config) => Some(config),
                _ => None,
            },
            None => None,
        },
        CascadeEvent::Rds(Some(e)) => e.resource(),
        _ => None,
    }
}

/// What [`lemma_reconciled`] says, of the configuration that an event puts in
/// force.
proof fn lemma_config_steps(pre: CascadeView, event: CascadeEvent, now: u128)
    requires
        pre.wf(),
        event_fits(pre, event, now),
    ensures
        config_in(event) matches Some(config) ==> {
            let cleared = CascadeView { rds: None, ..pre };
            &&& config_fits(pre, config, now)
            &&& pre.with_config(config, now).wf()
            &&& cleared.with_config(config, now).wf()
            &&& pre.next_watch <= pre.with_config(config, now).next_watch
            &&& cleared.with_config(config, now) == (CascadeView {
                rds: None,
                ..pre.with_config(config, now)
            })
        },
{
    if let Some(config) = config_in(event) {
        let cleared = CascadeView { rds: None, ..pre };
        lemma_with_config(pre, config, now);
        lemma_with_config(cleared, config, now);
    }
}

/// What [`lemma_reconciled`] says, of a configuration.
pub proof fn lemma_with_config(pre: CascadeView, config: RouteConfigResource, now: u128)
    requires
        pre.wf(),
        config_fits(pre, config, now),
    ensures
        pre.with_config(config, now).wf(),
        pre.with_config(config, now).cds.dom() == pre.cds.dom().union(config.clusters()),
        forall|n: Seq<char>| #[trigger]
            pre.cds.contains_key(n) ==> pre.with_config(config, now).cds[n] == pre.cds[n],
        forall|n: Seq<char>|
            config.clusters().contains(n) && !pre.cds.contains_key(n) ==> pre.next_watch
                <= #[trigger] pre.with_config(config, now).cds[n],
        pre.next_watch <= pre.with_config(config, now).next_watch,
        forall|n: Seq<char>| #[trigger]
            pre.with_config(config, now).pending.contains_key(n) == (!config.clusters().contains(n)
                && (pre.pending.contains_key(n) || pre.cds.contains_key(n))),
        forall|n: Seq<char>| #[trigger]
            pre.with_config(config, now).pending.contains_key(n) ==> pre.with_config(
                config,
                now,
            ).pending[n] == (if pre.pending.contains_key(n) {
                pre.pending[n] as int
            } else {
                now + CLUSTER_REMOVAL_GRACE
            }),
{
    let names = distinct(config.references());
    lemma_distinct(config.references());
    lemma_reconciled(pre, names, now);
    assert(names.to_set() == config.clusters());
    assert forall|n: Seq<char>| config.clusters().contains(n) == names.contains(n) by {
        assert(names.to_set().contains(n) == names.contains(n));
    }
}

/// A cluster is in the hands of the cascade until `deadline`: it is watched, and
/// if it is on its way out, not to be torn down earlier.
pub open spec fn held(view: CascadeView, n: Seq<char>, watch: u64, deadline: u128) -> bool {
    &&& view.cds.contains_key(n)
    &&& view.cds[n] == watch
    &&& view.pending.contains_key(n) ==> deadline <= view.pending[n]
}

/// An event at `now` that does not end the hold on a cluster: it does not come
/// before the grace period started, a teardown comes before `deadline`, and the
/// cluster's own watch does not close.
pub open spec fn within_grace(
    event: CascadeEvent,
    now: u128,
    n: Seq<char>,
    deadline: u128,
) -> bool {
    &&& deadline <= now + CLUSTER_REMOVAL_GRACE
    &&& event is Removal ==> now < deadline
    &&& event matches CascadeEvent::Cds(cluster, None) ==> cluster@ != n
}

/// An action that takes something of the cluster `n` away, which is watched as
/// `watch`.
pub open spec fn takes_down(action: ActionView, n: Seq<char>, watch: u64) -> bool {
    match action {
        ActionView::RemoveCluster(cluster) => cluster == n,
        ActionView::RemoveEndpoints(cluster) => cluster == n,
        ActionView::EvictClusters(keep) => !keep.contains(n),
        ActionView::DropClusterWatch(ended) => ended == watch,
        _ => false,
    }
}

/// Whatever happens within the grace period of a cluster, it keeps its watch,
/// and none of its cached resources nor its client is taken away.
pub proof fn law_held_through_grace(
    pre: CascadeView,
    event: CascadeEvent,
    now: u128,
    post: CascadeView,
    actions: Option<Seq<ActionView>>,
    n: Seq<char>,
    watch: u64,
    deadline: u128,
)
    requires
        pre.wf(),
        watches_distinct(pre),
        event_fits(pre, event, now),
        stepped(pre, event, now, post, actions),
        held(pre, n, watch, deadline),
        within_grace(event, now, n, deadline),
    ensures
        held(post, n, watch, deadline),
        actions matches Some(list) ==> forall|i: int|
            0 <= i < list.len() ==> !takes_down(#[trigger] list[i], n, watch),
{
    lemma_config_steps(pre, event, now);
    if let Some(config) = config_in(event) {
        lemma_with_config(pre, config, now);
        assert(pre.with_config(config, now).cds.dom().contains(n));
    }
    if let Some(list) = actions {
        match event {
            CascadeEvent::Removal => {
                assert(!pre.due(now).contains(n));
                assert(post.cds.contains_key(n));
                if pre.due(now) != Set::<Seq<char>>::empty() {
                    let order = choose|order: Seq<Seq<char>>| #[trigger]
                        lists(order, pre.due(now)) && list == pre.teardown(order) + seq![
                            ActionView::EvictClusters(post.cds.dom()),
                        ];
                    assert(!order.to_set().contains(n));
                    lemma_teardown_spares(pre, order, n, watch);
                    assert forall|i: int| 0 <= i < list.len() implies !takes_down(
                        #[trigger] list[i],
                        n,
                        watch,
                    ) by {
                        if i < pre.teardown(order).len() {
                            assert(list[i] == pre.teardown(order)[i]);
                        } else {
                            assert(list[i] == ActionView::EvictClusters(post.cds.dom()));
                        }
                    }
                }
            },
            _ => {
                assert forall|i: int| 0 <= i < list.len() implies !takes_down(
                    #[trigger] list[i],
                    n,
                    watch,
                ) by {}
            },
        }
    }
}

/// An action that ends the watch that `view` has of the endpoints of `n`.
pub open spec fn ends_endpoint_watch(view: CascadeView, action: ActionView, n: Seq<char>) -> bool {
    view.eds.contains_key(n) && action == ActionView::DropEndpointsWatch(view.eds[n])
}

/// An event by which the endpoints of `n` move to another name than they are watched
/// under.
pub open spec fn renames_endpoints(pre: CascadeView, event: CascadeEvent, n: Seq<char>) -> bool {
    match event {
        CascadeEvent::Cds(cluster, Some(e)) => cluster@ == n && (e.resource() matches Some(resource)
            && !pre.watches_endpoints(n, resource.eds_service_name@)),
        _ => false,
    }
}

/// The watch of the endpoints of `n` closes.
pub open spec fn closes_endpoints(event: CascadeEvent, n: Seq<char>) -> bool {
    event matches CascadeEvent::Eds(cluster, None) && cluster@ == n
}

/// Whatever happens within the grace period of a cluster, its endpoints stay watched
/// unless their own watch closes; and unless they move to another name, that watch
/// is the one that they had, under the name that they had.
pub proof fn law_endpoints_held_through_grace(
    pre: CascadeView,
    event: CascadeEvent,
    now: u128,
    post: CascadeView,
    actions: Option<Seq<ActionView>>,
    n: Seq<char>,
    watch: u64,
    deadline: u128,
)
    requires
        pre.wf(),
        watches_distinct(pre),
        event_fits(pre, event, now),
        stepped(pre, event, now, post, actions),
        held(pre, n, watch, deadline),
        within_grace(event, now, n, deadline),
        pre.eds.contains_key(n),
        !closes_endpoints(event, n),
    ensures
        post.eds.contains_key(n),
        !renames_endpoints(pre, event, n) ==> {
            &&& post.eds[n] == pre.eds[n]
            &&& post.eds_names.contains_key(n)
            &&& post.eds_names[n] == pre.eds_names[n]
            &&& actions matches Some(list) ==> forall|i: int|
                0 <= i < list.len() ==> !ends_endpoint_watch(pre, #[trigger] list[i], n)
        },
{
    assert(pre.eds_names.contains_key(n));
    if let Some(list) = actions {
        match event {
            CascadeEvent::Removal => {
                assert(!pre.due(now).contains(n));
                if pre.due(now) != Set::<Seq<char>>::empty() {
                    let order = choose|order: Seq<Seq<char>>| #[trigger]
                        lists(order, pre.due(now)) && list == pre.teardown(order) + seq![
                            ActionView::EvictClusters(post.cds.dom()),
                        ];
                    assert(!order.to_set().contains(n));
                    lemma_teardown_spares(pre, order, n, watch);
                    assert forall|i: int| 0 <= i < list.len() implies !ends_endpoint_watch(
                        pre,
                        #[trigger] list[i],
                        n,
                    ) by {
                        if i < pre.teardown(order).len() {
                            assert(list[i] == pre.teardown(order)[i]);
                        }
                    }
                }
            },
            CascadeEvent::Cds(cluster, Some(e)) => {
                if cluster@ != n {
                    assert forall|i: int| 0 <= i < list.len() implies !ends_endpoint_watch(
                        pre,
                        #[trigger] list[i],
                        n,
                    ) by {
                        assert(pre.eds.contains_key(cluster@) ==> pre.eds[cluster@] != pre.eds[n]);
                    }
                }
            },
            _ => {
                assert forall|i: int| 0 <= i < list.len() implies !ends_endpoint_watch(
                    pre,
                    #[trigger] list[i],
                    n,
                ) by {}
            },
        }
    }
}

/// Tearing other clusters down takes nothing of a cluster away.
proof fn lemma_teardown_spares(pre: CascadeView, order: Seq<Seq<char>>, n: Seq<char>, watch: u64)
    requires
        watches_distinct(pre),
        pre.cds.contains_key(n),
        pre.cds[n] == watch,
        !order.contains(n),
    ensures
        forall|i: int|
            0 <= i < pre.teardown(order).len() ==> !takes_down(
                #[trigger] pre.teardown(order)[i],
                n,
                watch,
            ) && !ends_endpoint_watch(pre, pre.teardown(order)[i], n),
    decreases order.len(),
{
    if order.len() > 0 {
        let before = order.drop_last();
        assert(!before.contains(n)) by {
            if before.contains(n) {
                assert(order[before.index_of(n)] == n);
            }
        }
        assert(order.last() != n) by {
            if order.last() == n {
                assert(order[order.len() - 1] == n);
            }
        }
        lemma_teardown_spares(pre, before, n, watch);
        let head = pre.teardown(before);
        let tail = pre.teardown_one(order.last());
        assert forall|i: int| 0 <= i < pre.teardown(order).len() implies !takes_down(
            #[trigger] pre.teardown(order)[i],
            n,
            watch,
        ) && !ends_endpoint_watch(pre, pre.teardown(order)[i], n) by {
            if i < head.len() {
                assert(pre.teardown(order)[i] == head[i]);
            } else {
                assert(pre.teardown(order)[i] == tail[i - head.len()]);
            }
        }
    }
}

/// Once the grace period of a cluster is over, the removal timer takes away all
/// that was kept for it: its watches, its cached resources and its client.
pub proof fn law_torn_down_after_grace(
    pre: CascadeView,
    now: u128,
    post: CascadeView,
    actions: Seq<ActionView>,
    n: Seq<char>,
)
    requires
        removal_step(pre, now, post, actions),
        pre.pending.contains_key(n),
        pre.pending[n] <= now,
    ensures
        !post.cds.contains_key(n),
        !post.eds.contains_key(n),
        !post.eds_names.contains_key(n),
        !post.pending.contains_key(n),
        pre.cds.contains_key(n) ==> actions.contains(ActionView::DropClusterWatch(pre.cds[n])),
        pre.eds.contains_key(n) ==> actions.contains(ActionView::DropEndpointsWatch(pre.eds[n])),
        actions.contains(ActionView::RemoveCluster(n)),
        actions.contains(ActionView::RemoveEndpoints(n)),
        actions.len() > 0,
        actions.last() == ActionView::EvictClusters(post.cds.dom()),
        !post.cds.dom().contains(n),
{
    assert(pre.due(now).contains(n));
    let order = choose|order: Seq<Seq<char>>| #[trigger]
        lists(order, pre.due(now)) && actions == pre.teardown(order) + seq![
            ActionView::EvictClusters(post.cds.dom()),
        ];
    assert(order.to_set().contains(n));
    lemma_teardown_takes(pre, order, n);
    let torn = pre.teardown(order);
    assert forall|a: ActionView| torn.contains(a) implies actions.contains(a) by {
        assert(actions[torn.index_of(a)] == a);
    }
}

/// Tearing clusters down does so for each of them.
proof fn lemma_teardown_takes(pre: CascadeView, order: Seq<Seq<char>>, n: Seq<char>)
    requires
        order.contains(n),
    ensures
        pre.cds.contains_key(n) ==> pre.teardown(order).contains(
            ActionView::DropClusterWatch(pre.cds[n]),
        ),
        pre.eds.contains_key(n) ==> pre.teardown(order).contains(
            ActionView::DropEndpointsWatch(pre.eds[n]),
        ),
        pre.teardown(order).contains(ActionView::RemoveCluster(n)),
        pre.teardown(order).contains(ActionView::RemoveEndpoints(n)),
    decreases order.len(),
{
    let before = order.drop_last();
    let head = pre.teardown(before);
    let tail = pre.teardown_one(order.last());
    let torn = pre.teardown(order);
    if order.last() == n {
        let k = tail.len();
        assert(torn[head.len() + k - 2] == ActionView::RemoveCluster(n));
        assert(torn[head.len() + k - 1] == ActionView::RemoveEndpoints(n));
        if pre.cds.contains_key(n) {
            assert(torn[head.len() as int] == ActionView::DropClusterWatch(pre.cds[n]));
        }
        if pre.eds.contains_key(n) {
            assert(torn[head.len() + k - 3] == ActionView::DropEndpointsWatch(pre.eds[n]));
        }
    } else {
        assert(before.contains(n)) by {
            assert(before[order.index_of(n)] == n);
        }
        lemma_teardown_takes(pre, before, n);
        assert forall|a: ActionView| head.contains(a) implies torn.contains(a) by {
            assert(torn[head.index_of(a)] == a);
        }
    }
}

/// A cluster whose grace period is not over is spared by the removal timer, and
/// so is one that is not on its way out.
pub proof fn law_others_survive_removal(
    pre: CascadeView,
    now: u128,
    post: CascadeView,
    actions: Seq<ActionView>,
    n: Seq<char>,
)
    requires
        removal_step(pre, now, post, actions),
        pre.pending.contains_key(n) ==> now < pre.pending[n],
    ensures
        post.cds.contains_key(n) == pre.cds.contains_key(n),
        pre.cds.contains_key(n) ==> post.cds[n] == pre.cds[n],
        post.eds.contains_key(n) == pre.eds.contains_key(n),
        pre.eds.contains_key(n) ==> post.eds[n] == pre.eds[n],
        post.eds_names.contains_key(n) == pre.eds_names.contains_key(n),
        pre.eds_names.contains_key(n) ==> post.eds_names[n] == pre.eds_names[n],
        post.pending.contains_key(n) == pre.pending.contains_key(n),
        pre.pending.contains_key(n) ==> post.pending[n] == pre.pending[n],
{
    assert(!pre.due(now).contains(n));
}

/// When the removal timer fires, at least one cluster is torn down: it never
/// fires in vain again and again.
pub proof fn law_timer_makes_progress(
    pre: CascadeView,
    deadline: u128,
    now: u128,
    post: CascadeView,
    actions: Seq<ActionView>,
)
    requires
        earliest(pre.pending, Some(deadline)),
        deadline <= now,
        removal_step(pre, now, post, actions),
    ensures
        actions.len() > 0,
        exists|n: Seq<char>| #[trigger]
            pre.pending.contains_key(n) && !post.pending.contains_key(n),
{
    let n = choose|n: Seq<char>| #[trigger]
        pre.pending.contains_key(n) && pre.pending[n] == deadline;
    law_torn_down_after_grace(pre, now, post, actions, n);
}

/// A cluster whose endpoints are published under the name watched already keeps
/// that watch; one whose endpoints moved to another name gets a new watch in
/// place of the old one.
pub proof fn law_endpoint_watch_follows_name(
    pre: CascadeView,
    n: Seq<char>,
    event: ResourceEvent<ClusterResource>,
)
    requires
        pre.wf(),
        cds_fits(pre, n, event),
        event.resource() is Some,
    ensures
        cds_step(pre, n, event).0.eds_names.contains_key(n),
        cds_step(pre, n, event).0.eds_names[n] == event.resource()->0.eds_service_name@,
        pre.watches_endpoints(n, event.resource()->0.eds_service_name@) ==> cds_step(
            pre,
            n,
            event,
        ).0 == pre,
        !pre.watches_endpoints(n, event.resource()->0.eds_service_name@) ==> cds_step(
            pre,
            n,
            event,
        ).0.eds == pre.eds.insert(n, pre.next_watch as u64),
{
}

} // verus!
