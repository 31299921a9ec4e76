//! What each event of the cascade leads to, told by what it delivers, what was
//! watched before, and what is watched and done afterwards.

use crate::cascade::{
    cds_fits, cds_step, config_fits, earliest, eds_actions, event_fits, lds_fits, lds_step,
    open_arms, rds_fits, rds_step, removal_step, stepped, watch_actions, ActionView, Arm,
    CascadeEvent, CascadeView, ResourceError, ResourceEvent, CLUSTER_REMOVAL_GRACE,
};
use crate::cascade_laws::{
    drops, law_torn_down_after_grace, lemma_teardown_drops, lemma_with_config, watches_distinct,
};
use crate::data_laws::{config_names, law_config_clusters_are_those_routed_to};
use crate::keyed::lists;
use crate::numbering::{lemma_absent, lemma_number_all};
use crate::resource::{
    distinct, lemma_distinct, ClusterResource, EndpointsResource, ListenerResource,
    RouteConfigResource, RouteSource,
};
use vstd::prelude::*;

verus! {

/// The grace period is five seconds.
pub proof fn law_grace_is_five_seconds()
    ensures
        CLUSTER_REMOVAL_GRACE == 5 * 1_000_000_000,
{
}

/// A cluster that `config` names and that is not watched.
pub open spec fn newly_named(pre: CascadeView, config: RouteConfigResource, n: Seq<char>) -> bool {
    config_names(config, n) && !pre.cds.contains_key(n)
}

/// The clusters are watched that were and that `config` names, each under the number
/// that it had or under a new one of its own; those that it does not name are on
/// their way out, with five seconds to go unless they were before.
pub open spec fn follows_config(
    pre: CascadeView,
    config: RouteConfigResource,
    now: u128,
    post: CascadeView,
) -> bool {
    &&& forall|n: Seq<char>| #[trigger]
        post.cds.contains_key(n) <==> pre.cds.contains_key(n) || config_names(config, n)
    &&& forall|n: Seq<char>| #[trigger]
        pre.cds.contains_key(n) ==> post.cds[n] == pre.cds[n]
    &&& forall|n: Seq<char>|
        newly_named(pre, config, n) ==> pre.next_watch <= #[trigger] post.cds[n] < post.next_watch
    &&& forall|m: Seq<char>, n: Seq<char>|
        newly_named(pre, config, m) && newly_named(pre, config, n) && m != n
            ==> #[trigger] post.cds[m] != #[trigger] post.cds[n]
    &&& pre.next_watch <= post.next_watch
    &&& post.eds == pre.eds
    &&& post.eds_names == pre.eds_names
    &&& forall|n: Seq<char>| #[trigger]
        post.pending.contains_key(n) <==> !config_names(config, n) && (pre.pending.contains_key(n)
            || pre.cds.contains_key(n))
    &&& forall|n: Seq<char>| #[trigger]
        post.pending.contains_key(n) ==> post.pending[n] == (if pre.pending.contains_key(n) {
            pre.pending[n] as int
        } else {
            now + 5_000_000_000
        })
}

/// The clients of exactly the clusters of `config` are asked for once, then `config`
/// itself is published once, and then every cluster that is newly named, and no
/// other, is watched once, under its own name and the number that it is kept under.
/// The acknowledgement comes last, and once.
pub open spec fn brings_in_force(
    pre: CascadeView,
    config: RouteConfigResource,
    post: CascadeView,
    actions: Seq<ActionView>,
) -> bool {
    &&& exists|i: int| 0 <= i < actions.len() && #[trigger] actions[i] is AddClusters
    &&& forall|i: int|
        0 <= i < actions.len() ==> (#[trigger] actions[i] matches ActionView::AddClusters(names)
            ==> names.no_duplicates() && forall|n: Seq<char>| #[trigger]
            names.contains(n) <==> config_names(config, n))
    &&& actions.contains(ActionView::PublishRouteConfig(config))
    &&& forall|i: int|
        0 <= i < actions.len() ==> (#[trigger] actions[i] matches ActionView::PublishRouteConfig(c)
            ==> c == config)
    &&& forall|n: Seq<char>| #[trigger]
        newly_named(pre, config, n) ==> actions.contains(
            ActionView::WatchCluster { cluster: n, watch: post.cds[n] },
        )
    &&& forall|i: int|
        0 <= i < actions.len() ==> (#[trigger] actions[i] matches ActionView::WatchCluster {
            cluster,
            watch,
        } ==> newly_named(pre, config, cluster) && post.cds[cluster] == watch)
    &&& forall|i: int, j: int|
        0 <= i < j < actions.len() ==> {
            let (a, b) = (#[trigger] actions[i], #[trigger] actions[j]);
            &&& !(b is AddClusters && (a is AddClusters || a is PublishRouteConfig
                || a is WatchCluster))
            &&& !(b is PublishRouteConfig && (a is PublishRouteConfig || a is WatchCluster))
            &&& !(a is WatchCluster && a == b)
            &&& !(a is Acknowledge)
        }
    &&& actions.len() > 0
    &&& actions.last() is Acknowledge
    &&& forall|i: int|
        0 <= i < actions.len() ==> (#[trigger] actions[i] is AddClusters
            || actions[i] is PublishRouteConfig || actions[i] is WatchCluster
            || actions[i] is DropRouteConfigWatch || actions[i] is Acknowledge)
}

/// Exactly the watch that there was of a route configuration is ended, if there was
/// one.
pub open spec fn ends_config_watch(pre: CascadeView, actions: Seq<ActionView>) -> bool {
    &&& pre.rds matches Some((_, watch)) ==> actions.contains(
        ActionView::DropRouteConfigWatch(watch),
    )
    &&& forall|i: int|
        0 <= i < actions.len() ==> (#[trigger] actions[i] matches ActionView::DropRouteConfigWatch(
            watch,
        ) ==> pre.rds matches Some((_, watched)) && watched == watch)
    &&& forall|i: int, j: int|
        0 <= i < j < actions.len() ==> !(#[trigger] actions[i] is DropRouteConfigWatch
            && #[trigger] actions[j] is DropRouteConfigWatch)
}

/// What the state and the actions by which a configuration comes into force hold.
proof fn lemma_in_force(
    pre: CascadeView,
    config: RouteConfigResource,
    now: u128,
    head: Seq<ActionView>,
)
    requires
        pre.wf(),
        config_fits(pre, config, now),
        head.len() <= 1,
        forall|i: int| 0 <= i < head.len() ==> #[trigger] head[i] is DropRouteConfigWatch,
    ensures
        follows_config(pre, config, now, pre.with_config(config, now)),
        brings_in_force(
            pre,
            config,
            pre.with_config(config, now),
            head + pre.reconcile_actions(config) + seq![ActionView::Acknowledge],
        ),
        forall|i: int|
            0 <= i < (head + pre.reconcile_actions(config) + seq![ActionView::Acknowledge]).len()
                ==> (#[trigger] (head + pre.reconcile_actions(config) + seq![
                ActionView::Acknowledge,
            ])[i] is DropRouteConfigWatch ==> i < head.len()),
{
    let post = pre.with_config(config, now);
    let names = distinct(config.references());
    let fresh = pre.unwatched(names);
    let watches = watch_actions(fresh, pre.next_watch);
    let actions = head + pre.reconcile_actions(config) + seq![ActionView::Acknowledge];
    lemma_with_config(pre, config, now);
    lemma_distinct(config.references());
    lemma_absent(pre.cds, names);
    lemma_number_all(pre.cds, fresh, pre.next_watch);
    assert forall|n: Seq<char>|
        #![trigger config_names(config, n)]
        #![trigger names.contains(n)]
        config_names(config, n) == config.clusters().contains(n) && config_names(config, n)
            == names.contains(n) by {
        law_config_clusters_are_those_routed_to(config, n);
        assert(names.to_set().contains(n) == config.references().to_set().contains(n));
    }
    assert forall|n: Seq<char>| #[trigger]
        post.cds.contains_key(n) <==> pre.cds.contains_key(n) || config_names(config, n) by {
        assert(post.cds.dom().contains(n) == pre.cds.dom().union(config.clusters()).contains(n));
    }
    assert forall|n: Seq<char>| #[trigger] fresh.contains(n) == newly_named(pre, config, n) by {}
    assert forall|n: Seq<char>| newly_named(pre, config, n) implies pre.next_watch
        <= #[trigger] post.cds[n] < post.next_watch && post.cds[n] == pre.next_watch
        + fresh.index_of(n) by {
        assert(fresh.contains(n));
        assert(fresh[fresh.index_of(n)] == n);
    }
    assert forall|m: Seq<char>, n: Seq<char>|
        newly_named(pre, config, m) && newly_named(pre, config, n) && m
            != n implies #[trigger] post.cds[m] != #[trigger] post.cds[n] by {
        assert(fresh.contains(m) && fresh.contains(n));
        assert(fresh[fresh.index_of(m)] == m);
        assert(fresh[fresh.index_of(n)] == n);
    }
    assert forall|n: Seq<char>| #[trigger]
        post.pending.contains_key(n) <==> !config_names(config, n) && (pre.pending.contains_key(n)
            || pre.cds.contains_key(n)) by {
        assert(config_names(config, n) == config.clusters().contains(n));
    }
    let h = head.len() as int;
    let f = fresh.len() as int;
    assert(actions.len() == h + 2 + f + 1);
    assert(actions[h] == ActionView::AddClusters(names));
    assert(actions[h + 1] == ActionView::PublishRouteConfig(config));
    assert(actions[h + 2 + f] == ActionView::Acknowledge);
    assert forall|i: int| h + 2 <= i < h + 2 + f implies #[trigger] actions[i]
        == (ActionView::WatchCluster {
        cluster: fresh[i - h - 2],
        watch: (pre.next_watch + (i - h - 2)) as u64,
    }) && newly_named(pre, config, fresh[i - h - 2]) && post.cds[fresh[i - h - 2]]
        == pre.next_watch + (i - h - 2) by {
        assert(fresh.contains(fresh[i - h - 2]));
    }
    assert forall|i: int| 0 <= i < h implies #[trigger] actions[i] is DropRouteConfigWatch by {
        assert(actions[i] == head[i]);
    }
    assert forall|n: Seq<char>| #[trigger]
        newly_named(pre, config, n) implies actions.contains(
        ActionView::WatchCluster { cluster: n, watch: post.cds[n] },
    ) by {
        assert(fresh.contains(n));
        let x = fresh.index_of(n);
        assert(fresh[x] == n);
        assert(actions[h + 2 + x] == (ActionView::WatchCluster { cluster: n, watch: post.cds[n] }));
    }
    assert forall|i: int, j: int| 0 <= i < j < actions.len() implies {
        let (a, b) = (#[trigger] actions[i], #[trigger] actions[j]);
        &&& !(b is AddClusters && (a is AddClusters || a is PublishRouteConfig
            || a is WatchCluster))
        &&& !(b is PublishRouteConfig && (a is PublishRouteConfig || a is WatchCluster))
        &&& !(a is WatchCluster && a == b)
        &&& !(a is Acknowledge)
    } by {
        if i >= h + 2 && j < h + 2 + f {
            assert(fresh[i - h - 2] != fresh[j - h - 2]);
        }
    }
}

/// A delivered route configuration comes into force, whatever it holds, and the watch
/// of it stays.
pub proof fn law_delivered_config_comes_into_force(
    pre: CascadeView,
    config: RouteConfigResource,
    now: u128,
)
    requires
        pre.wf(),
        rds_fits_config(pre, config, now),
    ensures
        ({
            let event = ResourceEvent::ResourceChanged { result: Ok(config) };
            let (post, actions) = rds_step(pre, event, now);
            &&& follows_config(pre, config, now, post)
            &&& brings_in_force(pre, config, post, actions)
            &&& post.rds == pre.rds
            &&& forall|i: int|
                0 <= i < actions.len() ==> !(#[trigger] actions[i] is DropRouteConfigWatch)
        }),
{
    let none = Seq::<ActionView>::empty();
    lemma_in_force(pre, config, now, none);
    assert(none + pre.reconcile_actions(config) + seq![ActionView::Acknowledge]
        =~= pre.reconcile_actions(config) + seq![ActionView::Acknowledge]);
}

/// Reconciling brings a configuration into force by itself, up to the acknowledgement,
/// and takes every configuration that can be delivered.
pub proof fn law_reconciling_brings_config_into_force(
    pre: CascadeView,
    config: RouteConfigResource,
    now: u128,
)
    requires
        pre.wf(),
        rds_fits_config(pre, config, now),
    ensures
        config_fits(pre, config, now),
        follows_config(pre, config, now, pre.with_config(config, now)),
        brings_in_force(
            pre,
            config,
            pre.with_config(config, now),
            pre.reconcile_actions(config).push(ActionView::Acknowledge),
        ),
        pre.with_config(config, now).rds == pre.rds,
        forall|i: int|
            0 <= i < pre.reconcile_actions(config).len() ==> !(#[trigger] pre.reconcile_actions(
                config,
            )[i] is DropRouteConfigWatch),
{
    let none = Seq::<ActionView>::empty();
    let actions = pre.reconcile_actions(config);
    lemma_in_force(pre, config, now, none);
    assert(none + actions + seq![ActionView::Acknowledge] =~= actions.push(
        ActionView::Acknowledge,
    ));
    assert forall|i: int| 0 <= i < actions.len() implies !(
    #[trigger] actions[i] is DropRouteConfigWatch) by {
        assert((none + actions + seq![ActionView::Acknowledge])[i] == actions[i]);
    }
}

/// There are numbers and time left for a configuration.
pub open spec fn rds_fits_config(
    pre: CascadeView,
    config: RouteConfigResource,
    now: u128,
) -> bool {
    event_fits(
        pre,
        CascadeEvent::Rds(Some(ResourceEvent::ResourceChanged { result: Ok(config) })),
        now,
    )
}

/// The configuration that a delivered listener carries comes into force, whatever was
/// watched before, and no route configuration is watched any more.
pub proof fn law_inline_config_comes_into_force(
    pre: CascadeView,
    listener: ListenerResource,
    config: RouteConfigResource,
    now: u128,
)
    requires
        pre.wf(),
        rds_fits_config(pre, config, now),
        listener.route_source == RouteSource::Inline(config),
    ensures
        ({
            let event = ResourceEvent::ResourceChanged { result: Ok(listener) };
            let (post, actions) = lds_step(pre, event, now);
            &&& follows_config(pre, config, now, post)
            &&& brings_in_force(pre, config, post, actions)
            &&& post.rds is None
            &&& ends_config_watch(pre, actions)
            &&& forall|i: int|
                0 <= i < actions.len() ==> (#[trigger] actions[i] is DropRouteConfigWatch ==> i
                    == 0)
        }),
{
    let cleared = CascadeView { rds: None, ..pre };
    let event = ResourceEvent::ResourceChanged { result: Ok(listener) };
    let (post, actions) = lds_step(pre, event, now);
    let head = pre.drop_rds();
    lemma_in_force(cleared, config, now, head);
    assert(post == cleared.with_config(config, now));
    assert(actions == head + cleared.reconcile_actions(config) + seq![ActionView::Acknowledge]);
    assert forall|n: Seq<char>|
        #![trigger newly_named(pre, config, n)]
        #![trigger newly_named(cleared, config, n)]
        newly_named(pre, config, n) == newly_named(cleared, config, n) by {}
    assert(follows_config(pre, config, now, post));
    assert(brings_in_force(pre, config, post, actions));
    if let Some((_, watch)) = pre.rds {
        assert(actions[0] == ActionView::DropRouteConfigWatch(watch));
    }
}

/// After a delivered listener that refers to a route configuration, whatever was
/// watched before, the watched one is that of this name. If it was before, nothing
/// changes; otherwise it is watched under a new number, and after that the previous
/// watch is ended. Nothing else changes.
pub proof fn law_listener_decides_the_watched_config(
    pre: CascadeView,
    listener: ListenerResource,
    name: String,
    now: u128,
)
    requires
        pre.wf(),
        pre.next_watch < u64::MAX || (pre.rds matches Some((watched, _)) && watched == name@),
        listener.route_source == RouteSource::Rds(name),
    ensures
        ({
            let event = ResourceEvent::ResourceChanged { result: Ok(listener) };
            let (post, actions) = lds_step(pre, event, now);
            let same = pre.rds matches Some((watched, _)) && watched == name@;
            &&& post.rds matches Some((watched, _)) && watched == name@
            &&& same ==> post == pre
            &&& !same ==> {
                let watch = (post.rds->0).1;
                &&& pre.next_watch <= watch < post.next_watch
                &&& actions.contains(ActionView::WatchRouteConfig { name: name@, watch })
                &&& ends_config_watch(pre, actions)
            }
            &&& forall|i: int|
                0 <= i < actions.len() ==> match #[trigger] actions[i] {
                    ActionView::WatchRouteConfig { name: n, watch } => !same && n == name@ && watch
                        == (post.rds->0).1,
                    ActionView::DropRouteConfigWatch(_) => !same,
                    ActionView::Acknowledge => i == actions.len() - 1,
                    _ => false,
                }
            &&& forall|i: int, j: int|
                0 <= i < j < actions.len() ==> !(#[trigger] actions[j] is WatchRouteConfig && (
                #[trigger] actions[i] is DropRouteConfigWatch || actions[i] is WatchRouteConfig))
            &&& actions.len() > 0
            &&& actions.last() is Acknowledge
            &&& post.cds == pre.cds
            &&& post.eds == pre.eds
            &&& post.eds_names == pre.eds_names
            &&& post.pending == pre.pending
        }),
{
    let event = ResourceEvent::ResourceChanged { result: Ok(listener) };
    let (post, actions) = lds_step(pre, event, now);
    let same = pre.rds matches Some((watched, _)) && watched == name@;
    if !same {
        assert(actions[0] == (ActionView::WatchRouteConfig {
            name: name@,
            watch: pre.next_watch as u64,
        }));
        if let Some((_, watch)) = pre.rds {
            assert(actions[1] == ActionView::DropRouteConfigWatch(watch));
        }
    }
}

/// A delivered cluster is cached, whatever it holds, under the cluster of the watch.
/// If its endpoints were last watched under the name that it gives, no watch changes;
/// otherwise they are watched under that name and a new number, after their previous
/// watch, if there is one, has been ended. Nothing else changes.
pub proof fn law_delivered_cluster_is_cached_and_its_endpoints_watched(
    pre: CascadeView,
    n: Seq<char>,
    resource: ClusterResource,
)
    requires
        pre.wf(),
        pre.next_watch < u64::MAX || (pre.eds_names.contains_key(n) && pre.eds_names[n]
            == resource.eds_service_name@),
    ensures
        ({
            let event = ResourceEvent::ResourceChanged { result: Ok(resource) };
            let (post, actions) = cds_step(pre, n, event);
            let name = resource.eds_service_name@;
            let same = pre.eds_names.contains_key(n) && pre.eds_names[n] == name;
            &&& actions.contains(ActionView::UpdateCluster { cluster: n, resource })
            &&& same ==> post == pre
            &&& !same ==> {
                &&& post.eds.contains_key(n)
                &&& pre.next_watch <= post.eds[n] < post.next_watch
                &&& actions.contains(
                    ActionView::WatchEndpoints { cluster: n, name, watch: post.eds[n] },
                )
                &&& pre.eds.contains_key(n) ==> actions.contains(
                    ActionView::DropEndpointsWatch(pre.eds[n]),
                )
            }
            &&& post.eds_names.contains_key(n)
            &&& post.eds_names[n] == name
            &&& forall|m: Seq<char>|
                m != n ==> (#[trigger] post.eds.contains_key(m) <==> pre.eds.contains_key(m)) && (
                pre.eds.contains_key(m) ==> post.eds[m] == pre.eds[m])
            &&& forall|m: Seq<char>|
                m != n ==> (#[trigger] post.eds_names.contains_key(m)
                    <==> pre.eds_names.contains_key(m)) && (pre.eds_names.contains_key(m)
                    ==> post.eds_names[m] == pre.eds_names[m])
            &&& forall|i: int|
                0 <= i < actions.len() ==> match #[trigger] actions[i] {
                    ActionView::UpdateCluster { cluster, resource: r } => cluster == n && r
                        == resource,
                    ActionView::WatchEndpoints { cluster, name: watched, watch } => !same && cluster
                        == n && watched == name && watch == post.eds[n],
                    ActionView::DropEndpointsWatch(watch) => !same && pre.eds.contains_key(n)
                        && watch == pre.eds[n],
                    ActionView::Acknowledge => i == actions.len() - 1,
                    _ => false,
                }
            &&& forall|i: int, j: int|
                0 <= i < j < actions.len() ==> {
                    let (a, b) = (#[trigger] actions[i], #[trigger] actions[j]);
                    &&& !(b is UpdateCluster)
                    &&& !(b is DropEndpointsWatch && (a is DropEndpointsWatch
                        || a is WatchEndpoints))
                    &&& !(b is WatchEndpoints && a is WatchEndpoints)
                }
            &&& actions.last() is Acknowledge
            &&& post.rds == pre.rds
            &&& post.cds == pre.cds
            &&& post.pending == pre.pending
        }),
{
    let event = ResourceEvent::ResourceChanged { result: Ok(resource) };
    let (post, actions) = cds_step(pre, n, event);
    let name = resource.eds_service_name@;
    let same = pre.eds_names.contains_key(n) && pre.eds_names[n] == name;
    assert(actions[0] == (ActionView::UpdateCluster { cluster: n, resource }));
    if !same {
        let watch = pre.next_watch as u64;
        if pre.eds.contains_key(n) {
            assert(actions[1] == ActionView::DropEndpointsWatch(pre.eds[n]));
            assert(actions[2] == (ActionView::WatchEndpoints { cluster: n, name, watch }));
        } else {
            assert(actions[1] == (ActionView::WatchEndpoints { cluster: n, name, watch }));
        }
    }
}

/// Delivered endpoints are cached, whatever they hold, as they are, under the cluster
/// of the watch, once and before the acknowledgement; nothing else is done.
pub proof fn law_delivered_endpoints_are_cached(n: Seq<char>, endpoints: EndpointsResource)
    ensures
        ({
            let event = ResourceEvent::ResourceChanged { result: Ok(endpoints) };
            let actions = eds_actions(n, event);
            &&& actions.contains(ActionView::UpdateEndpoints { cluster: n, endpoints })
            &&& forall|i: int|
                0 <= i < actions.len() ==> match #[trigger] actions[i] {
                    ActionView::UpdateEndpoints { cluster, endpoints: e } => cluster == n && e
                        == endpoints,
                    ActionView::Acknowledge => i == actions.len() - 1,
                    _ => false,
                }
            &&& forall|i: int, j: int|
                0 <= i < j < actions.len() ==> !(#[trigger] actions[i] is UpdateEndpoints
                    && #[trigger] actions[j] is UpdateEndpoints)
            &&& actions.last() is Acknowledge
        }),
{
    let event = ResourceEvent::ResourceChanged { result: Ok(endpoints) };
    let actions = eds_actions(n, event);
    assert(actions[0] == (ActionView::UpdateEndpoints { cluster: n, endpoints }));
}

/// An error of any kind, on any level, changes nothing and is only acknowledged.
pub proof fn law_errors_are_only_acknowledged(
    pre: CascadeView,
    n: Seq<char>,
    error: ResourceError,
    now: u128,
)
    ensures
        ({
            let only = seq![ActionView::Acknowledge];
            &&& lds_step(pre, ResourceEvent::ResourceChanged { result: Err(error) }, now) == (
                pre,
                only,
            )
            &&& lds_step(pre, ResourceEvent::AmbientError { error }, now) == (pre, only)
            &&& rds_step(pre, ResourceEvent::ResourceChanged { result: Err(error) }, now) == (
                pre,
                only,
            )
            &&& rds_step(pre, ResourceEvent::AmbientError { error }, now) == (pre, only)
            &&& cds_step(pre, n, ResourceEvent::ResourceChanged { result: Err(error) }) == (
                pre,
                only,
            )
            &&& cds_step(pre, n, ResourceEvent::AmbientError { error }) == (pre, only)
            &&& eds_actions(n, ResourceEvent::ResourceChanged { result: Err(error) }) == only
            &&& eds_actions(n, ResourceEvent::AmbientError { error }) == only
        }),
{
}

/// The removal timer tears down exactly the clusters whose time has come: their
/// watches are ended, their cached resources dropped, and then the clients of all but
/// the clusters still watched evicted, each once. The others keep everything, and
/// with nothing due nothing is done.
pub proof fn law_timer_tears_down_exactly_what_is_due(
    pre: CascadeView,
    now: u128,
    post: CascadeView,
    actions: Seq<ActionView>,
)
    requires
        watches_distinct(pre),
        removal_step(pre, now, post, actions),
    ensures
        forall|n: Seq<char>| #[trigger]
            post.pending.contains_key(n) <==> pre.pending.contains_key(n) && now < pre.pending[n],
        forall|n: Seq<char>| #[trigger]
            post.pending.contains_key(n) ==> post.pending[n] == pre.pending[n],
        forall|n: Seq<char>| #[trigger]
            post.cds.contains_key(n) <==> pre.cds.contains_key(n) && !is_due(pre, now, n),
        forall|n: Seq<char>| #[trigger]
            post.cds.contains_key(n) ==> post.cds[n] == pre.cds[n],
        forall|n: Seq<char>| #[trigger]
            post.eds.contains_key(n) <==> pre.eds.contains_key(n) && !is_due(pre, now, n),
        forall|n: Seq<char>| #[trigger]
            post.eds.contains_key(n) ==> post.eds[n] == pre.eds[n],
        forall|n: Seq<char>| #[trigger]
            post.eds_names.contains_key(n) <==> pre.eds_names.contains_key(n) && !is_due(
                pre,
                now,
                n,
            ),
        forall|n: Seq<char>| #[trigger]
            post.eds_names.contains_key(n) ==> post.eds_names[n] == pre.eds_names[n],
        post.rds == pre.rds,
        post.next_watch == pre.next_watch,
        actions.len() == 0 <==> forall|n: Seq<char>| !#[trigger] is_due(pre, now, n),
        forall|n: Seq<char>| #[trigger]
            is_due(pre, now, n) ==> {
                &&& actions.contains(ActionView::RemoveCluster(n))
                &&& actions.contains(ActionView::RemoveEndpoints(n))
                &&& pre.cds.contains_key(n) ==> actions.contains(
                    ActionView::DropClusterWatch(pre.cds[n]),
                )
                &&& pre.eds.contains_key(n) ==> actions.contains(
                    ActionView::DropEndpointsWatch(pre.eds[n]),
                )
            },
        forall|i: int|
            0 <= i < actions.len() - 1 ==> takes_from_due(pre, now, #[trigger] actions[i]),
        actions.len() > 0 ==> (actions.last() matches ActionView::EvictClusters(keep) && forall|
            n: Seq<char>,
        | #[trigger]
            keep.contains(n) <==> post.cds.contains_key(n)),
        actions.no_duplicates(),
        forall|n: Seq<char>, i: int, j: int|
            0 <= i < actions.len() && 0 <= j < actions.len() && #[trigger] precedes(
                pre,
                n,
                actions[i],
                actions[j],
            ) ==> i < j,
{
    assert forall|n: Seq<char>| #[trigger] is_due(pre, now, n) == pre.due(now).contains(n) by {}
    let due = pre.due(now);
    if due == Set::<Seq<char>>::empty() {
        assert forall|n: Seq<char>| !#[trigger] is_due(pre, now, n) by {
            assert(!due.contains(n));
        }
    } else {
        let order = choose|order: Seq<Seq<char>>| #[trigger]
            lists(order, due) && actions == pre.teardown(order) + seq![
                ActionView::EvictClusters(post.cds.dom()),
            ];
        let torn = pre.teardown(order);
        assert forall|n: Seq<char>| #[trigger] order.contains(n) == is_due(pre, now, n) by {
            assert(order.to_set().contains(n) == due.contains(n));
        }
        lemma_teardown_contents(pre, order);
        lemma_teardown_drops(pre, order);
        assert forall|n: Seq<char>, i: int, j: int|
            0 <= i < actions.len() && 0 <= j < actions.len() && #[trigger] precedes(
                pre,
                n,
                actions[i],
                actions[j],
            ) implies i < j by {
            lemma_teardown_order(pre, order, n);
            assert(i < torn.len() && j < torn.len());
            assert(precedes(pre, n, torn[i], torn[j]));
        }
        assert(actions.last() == ActionView::EvictClusters(post.cds.dom()));
        assert(exists|n: Seq<char>| #[trigger] is_due(pre, now, n)) by {
            if forall|n: Seq<char>| !#[trigger] is_due(pre, now, n) {
                assert(due =~= Set::<Seq<char>>::empty());
            }
        }
        assert forall|n: Seq<char>| #[trigger] is_due(pre, now, n) implies {
            &&& actions.contains(ActionView::RemoveCluster(n))
            &&& actions.contains(ActionView::RemoveEndpoints(n))
            &&& pre.cds.contains_key(n) ==> actions.contains(
                ActionView::DropClusterWatch(pre.cds[n]),
            )
            &&& pre.eds.contains_key(n) ==> actions.contains(
                ActionView::DropEndpointsWatch(pre.eds[n]),
            )
        } by {
            law_torn_down_after_grace(pre, now, post, actions, n);
        }
        assert forall|i: int| 0 <= i < torn.len() implies torn[i] == #[trigger] actions[i] by {}
        assert(actions.no_duplicates()) by {
            assert forall|i: int, j: int| 0 <= i < j < actions.len() implies actions[i]
                != actions[j] by {
                if j < torn.len() {
                    assert(torn[i] != torn[j]);
                } else {
                    assert(drops(torn[i]));
                }
            }
        }
        assert forall|i: int| 0 <= i < actions.len() - 1 implies takes_from_due(
            pre,
            now,
            #[trigger] actions[i],
        ) by {
            assert(of_some(pre, order, torn[i]));
            match torn[i] {
                ActionView::DropClusterWatch(watch) => {
                    let n = choose|n: Seq<char>| #[trigger]
                        order.contains(n) && pre.cds.contains_key(n) && pre.cds[n] == watch;
                    assert(is_due(pre, now, n));
                },
                ActionView::DropEndpointsWatch(watch) => {
                    let n = choose|n: Seq<char>| #[trigger]
                        order.contains(n) && pre.eds.contains_key(n) && pre.eds[n] == watch;
                    assert(is_due(pre, now, n));
                },
                _ => {},
            }
        }
    }
}

/// The time of the teardown of `n` has come.
pub open spec fn is_due(pre: CascadeView, now: u128, n: Seq<char>) -> bool {
    pre.pending.contains_key(n) && pre.pending[n] <= now
}

/// Of the actions that tear the cluster `n` down, `a` comes before `b`: first its watch
/// is ended, then that of its endpoints, then its resource is dropped from the cache,
/// and then its endpoints are.
pub open spec fn precedes(pre: CascadeView, n: Seq<char>, a: ActionView, b: ActionView) -> bool {
    let cluster_watch = |x: ActionView|
        pre.cds.contains_key(n) && x == ActionView::DropClusterWatch(pre.cds[n]);
    let endpoints_watch = |x: ActionView|
        pre.eds.contains_key(n) && x == ActionView::DropEndpointsWatch(pre.eds[n]);
    ||| cluster_watch(a) && (endpoints_watch(b) || b == ActionView::RemoveCluster(n) || b
        == ActionView::RemoveEndpoints(n))
    ||| endpoints_watch(a) && (b == ActionView::RemoveCluster(n) || b
        == ActionView::RemoveEndpoints(n))
    ||| a == ActionView::RemoveCluster(n) && b == ActionView::RemoveEndpoints(n)
}

/// Tearing clusters down takes what there is of each of them in order.
proof fn lemma_teardown_order(pre: CascadeView, order: Seq<Seq<char>>, n: Seq<char>)
    requires
        watches_distinct(pre),
        order.no_duplicates(),
    ensures
        forall|i: int, j: int|
            0 <= i < pre.teardown(order).len() && 0 <= j < pre.teardown(order).len()
                && #[trigger] precedes(pre, n, pre.teardown(order)[i], pre.teardown(order)[j])
                ==> i < j,
    decreases order.len(),
{
    if order.len() > 0 {
        let before = order.drop_last();
        let m = order.last();
        let head = pre.teardown(before);
        let tail = pre.teardown_one(m);
        let torn = pre.teardown(order);
        lemma_teardown_order(pre, before, n);
        lemma_teardown_contents(pre, before);
        assert(!before.contains(m)) by {
            if before.contains(m) {
                assert(order[before.index_of(m)] == order[order.len() - 1]);
            }
        }
        assert forall|i: int, j: int|
            0 <= i < torn.len() && 0 <= j < torn.len() && #[trigger] precedes(
                pre,
                n,
                torn[i],
                torn[j],
            ) implies i < j by {
            if i < head.len() && j < head.len() {
                assert(precedes(pre, n, head[i], head[j]));
            } else if i >= head.len() && j < head.len() {
                assert(of_some(pre, before, head[j]));
                assert(torn[i] == tail[i - head.len()]);
                assert(n == m);
                match head[j] {
                    ActionView::DropEndpointsWatch(watch) => {
                        let o = choose|o: Seq<char>| #[trigger]
                            before.contains(o) && pre.eds.contains_key(o) && pre.eds[o] == watch;
                        assert(pre.eds.contains_key(n));
                    },
                    _ => {},
                }
            } else if i >= head.len() {
                assert(torn[i] == tail[i - head.len()] && torn[j] == tail[j - head.len()]);
            }
        }
    }
}

/// The action takes something away of a cluster whose time has come.
pub open spec fn takes_from_due(pre: CascadeView, now: u128, action: ActionView) -> bool {
    match action {
        ActionView::RemoveCluster(n) => is_due(pre, now, n),
        ActionView::RemoveEndpoints(n) => is_due(pre, now, n),
        ActionView::DropClusterWatch(watch) => exists|n: Seq<char>| #[trigger]
            is_due(pre, now, n) && pre.cds.contains_key(n) && pre.cds[n] == watch,
        ActionView::DropEndpointsWatch(watch) => exists|n: Seq<char>| #[trigger]
            is_due(pre, now, n) && pre.eds.contains_key(n) && pre.eds[n] == watch,
        _ => false,
    }
}

/// The action takes something of one of `order` away.
spec fn of_some(pre: CascadeView, order: Seq<Seq<char>>, action: ActionView) -> bool {
    match action {
        ActionView::RemoveCluster(n) => order.contains(n),
        ActionView::RemoveEndpoints(n) => order.contains(n),
        ActionView::DropClusterWatch(watch) => exists|n: Seq<char>| #[trigger]
            order.contains(n) && pre.cds.contains_key(n) && pre.cds[n] == watch,
        ActionView::DropEndpointsWatch(watch) => exists|n: Seq<char>| #[trigger]
            order.contains(n) && pre.eds.contains_key(n) && pre.eds[n] == watch,
        _ => false,
    }
}

/// Tearing clusters down takes only of them, and each thing once.
proof fn lemma_teardown_contents(pre: CascadeView, order: Seq<Seq<char>>)
    requires
        watches_distinct(pre),
        order.no_duplicates(),
    ensures
        forall|i: int|
            0 <= i < pre.teardown(order).len() ==> of_some(
                pre,
                order,
                #[trigger] pre.teardown(order)[i],
            ),
        pre.teardown(order).no_duplicates(),
    decreases order.len(),
{
    if order.len() > 0 {
        let before = order.drop_last();
        let n = order.last();
        let head = pre.teardown(before);
        let tail = pre.teardown_one(n);
        let torn = pre.teardown(order);
        lemma_teardown_contents(pre, before);
        assert(order[order.len() - 1] == n);
        assert(order.contains(n));
        assert forall|m: Seq<char>| before.contains(m) implies order.contains(m) && m != n by {
            assert(order[before.index_of(m)] == m);
        }
        assert forall|a: ActionView| of_some(pre, before, a) implies of_some(pre, order, a) by {
            match a {
                ActionView::DropClusterWatch(watch) => {
                    let m = choose|m: Seq<char>| #[trigger]
                        before.contains(m) && pre.cds.contains_key(m) && pre.cds[m] == watch;
                    assert(order.contains(m));
                },
                ActionView::DropEndpointsWatch(watch) => {
                    let m = choose|m: Seq<char>| #[trigger]
                        before.contains(m) && pre.eds.contains_key(m) && pre.eds[m] == watch;
                    assert(order.contains(m));
                },
                _ => {},
            }
        }
        assert forall|i: int| 0 <= i < tail.len() implies of_some(pre, order, #[trigger] tail[i])
            && !of_some(pre, before, tail[i]) by {
            match tail[i] {
                ActionView::DropClusterWatch(watch) => {
                    assert(order.contains(n) && pre.cds[n] == watch);
                    if of_some(pre, before, tail[i]) {
                        let m = choose|m: Seq<char>| #[trigger]
                            before.contains(m) && pre.cds.contains_key(m) && pre.cds[m] == watch;
                        assert(pre.cds.contains_key(n));
                    }
                },
                ActionView::DropEndpointsWatch(watch) => {
                    assert(order.contains(n) && pre.eds[n] == watch);
                    if of_some(pre, before, tail[i]) {
                        let m = choose|m: Seq<char>| #[trigger]
                            before.contains(m) && pre.eds.contains_key(m) && pre.eds[m] == watch;
                        assert(pre.eds.contains_key(n));
                    }
                },
                _ => {},
            }
        }
        assert forall|i: int| 0 <= i < torn.len() implies of_some(
            pre,
            order,
            #[trigger] torn[i],
        ) by {
            if i < head.len() {
                assert(torn[i] == head[i]);
            } else {
                assert(torn[i] == tail[i - head.len()]);
            }
        }
        assert forall|i: int, j: int| 0 <= i < j < torn.len() implies torn[i] != torn[j] by {
            if j < head.len() {
                assert(head[i] != head[j]);
            } else if i < head.len() {
                assert(of_some(pre, before, head[i]));
                assert(!of_some(pre, before, tail[j - head.len()]));
            } else {
                assert(torn[i] == tail[i - head.len()] && torn[j] == tail[j - head.len()]);
            }
        }
    }
}

/// A closed watch of a cluster or of its endpoints is forgotten, nothing else is, and
/// nothing is done; a closed watch of the route configuration is forgotten and ended;
/// the closed watch of the listener changes nothing and ends the cascade.
pub proof fn law_closed_watches_are_forgotten(
    pre: CascadeView,
    cluster: String,
    now: u128,
    post: CascadeView,
    actions: Option<Seq<ActionView>>,
)
    ensures
        stepped(pre, CascadeEvent::Cds(cluster, None), now, post, actions) ==> {
            &&& actions is Some && actions->0.len() == 0
            &&& forall|n: Seq<char>| #[trigger]
                post.cds.contains_key(n) <==> pre.cds.contains_key(n) && n != cluster@
            &&& forall|n: Seq<char>| #[trigger]
                post.cds.contains_key(n) ==> post.cds[n] == pre.cds[n]
            &&& post == (CascadeView { cds: post.cds, ..pre })
        },
        stepped(pre, CascadeEvent::Eds(cluster, None), now, post, actions) ==> {
            &&& actions is Some && actions->0.len() == 0
            &&& forall|n: Seq<char>| #[trigger]
                post.eds.contains_key(n) <==> pre.eds.contains_key(n) && n != cluster@
            &&& forall|n: Seq<char>| #[trigger]
                post.eds.contains_key(n) ==> post.eds[n] == pre.eds[n]
            &&& post == (CascadeView { eds: post.eds, ..pre })
        },
        stepped(pre, CascadeEvent::Rds(None), now, post, actions) ==> {
            &&& actions is Some
            &&& post.rds is None
            &&& post == (CascadeView { rds: None, ..pre })
            &&& ends_config_watch(pre, actions->0)
            &&& forall|i: int|
                0 <= i < actions->0.len() ==> #[trigger] actions->0[i] is DropRouteConfigWatch
        },
        stepped(pre, CascadeEvent::Lds(None), now, post, actions) ==> actions is None && post
            == pre,
{
    if stepped(pre, CascadeEvent::Rds(None), now, post, actions) {
        if let Some((_, watch)) = pre.rds {
            assert(actions->0[0] == ActionView::DropRouteConfigWatch(watch));
        }
    }
}

/// A step does for what a watch delivers what the handler of that watch does, and for
/// the timer what the timer's does.
pub proof fn law_steps_are_those_of_the_handlers(
    pre: CascadeView,
    event: CascadeEvent,
    now: u128,
    post: CascadeView,
    actions: Option<Seq<ActionView>>,
)
    requires
        stepped(pre, event, now, post, actions),
    ensures
        event matches CascadeEvent::Lds(Some(e)) ==> actions is Some && (post, actions->0)
            == lds_step(pre, e, now),
        event matches CascadeEvent::Rds(Some(e)) ==> actions is Some && (post, actions->0)
            == rds_step(pre, e, now),
        event matches CascadeEvent::Cds(cluster, Some(e)) ==> actions is Some && (
            post,
            actions->0,
        ) == cds_step(pre, cluster@, e),
        event matches CascadeEvent::Eds(cluster, Some(e)) ==> actions == Some(
            eds_actions(cluster@, e),
        ) && post == pre,
        event is Removal ==> actions is Some && removal_step(pre, now, post, actions->0),
{
}

/// The removal arm is that of the earliest time of a teardown, and there is one exactly
/// if some cluster is on its way out.
pub proof fn law_next_removal_is_the_earliest(
    pending: Map<Seq<char>, u128>,
    next: Option<u128>,
)
    requires
        earliest(pending, next),
    ensures
        next is None <==> forall|n: Seq<char>| !#[trigger] pending.contains_key(n),
        next matches Some(deadline) ==> {
            &&& exists|n: Seq<char>| #[trigger] pending.contains_key(n) && pending[n] == deadline
            &&& forall|n: Seq<char>| #[trigger] pending.contains_key(n) ==> deadline <= pending[n]
        },
{
    if next is None {
        assert forall|n: Seq<char>| !#[trigger] pending.contains_key(n) by {
            assert(!pending.dom().contains(n));
        }
    }
}

/// The level of an arm, the higher ones first.
pub open spec fn level(arm: Arm) -> int {
    match arm {
        Arm::Lds => 0,
        Arm::Rds => 1,
        Arm::Removal(_) => 2,
        Arm::Cds => 3,
        Arm::Eds => 4,
    }
}

/// The sources of work are exactly the open ones: the listener always, the route
/// configuration if one is watched, the timer if a cluster is on its way out, the
/// clusters if any is watched, and the endpoints if any are watched, each of them
/// whatever the others are. The higher levels come first, and each comes once.
pub proof fn law_polled_arms_are_the_open_ones(view: CascadeView, next: Option<u128>)
    requires
        earliest(view.pending, next),
    ensures
        ({
            let arms = open_arms(view, next);
            &&& arms.contains(Arm::Lds)
            &&& arms.contains(Arm::Rds) <==> view.rds is Some
            &&& forall|deadline: u128| #[trigger]
                arms.contains(Arm::Removal(deadline)) <==> {
                    &&& exists|n: Seq<char>| #[trigger]
                        view.pending.contains_key(n) && view.pending[n] == deadline
                    &&& forall|n: Seq<char>| #[trigger]
                        view.pending.contains_key(n) ==> deadline <= view.pending[n]
                }
            &&& arms.contains(Arm::Cds) <==> exists|n: Seq<char>| #[trigger]
                view.cds.contains_key(n)
            &&& arms.contains(Arm::Eds) <==> exists|n: Seq<char>| #[trigger]
                view.eds.contains_key(n)
            &&& forall|i: int, j: int|
                0 <= i < j < arms.len() ==> level(#[trigger] arms[i]) < level(#[trigger] arms[j])
        }),
{
    let arms = open_arms(view, next);
    law_next_removal_is_the_earliest(view.pending, next);
    let r = if view.rds is Some {
        1int
    } else {
        0
    };
    let t = if next is Some {
        1int
    } else {
        0
    };
    let c = if view.cds.dom() != Set::<Seq<char>>::empty() {
        1int
    } else {
        0
    };
    assert(arms[0] == Arm::Lds);
    if view.rds is Some {
        assert(arms[1] == Arm::Rds);
    }
    if let Some(deadline) = next {
        assert(arms[1 + r] == Arm::Removal(deadline));
    }
    if c == 1 {
        assert(arms[1 + r + t] == Arm::Cds);
        assert(exists|n: Seq<char>| #[trigger] view.cds.contains_key(n)) by {
            if forall|n: Seq<char>| !#[trigger] view.cds.contains_key(n) {
                assert(view.cds.dom() =~= Set::<Seq<char>>::empty());
            }
        }
    } else {
        assert forall|n: Seq<char>| !#[trigger] view.cds.contains_key(n) by {
            assert(!view.cds.dom().contains(n));
        }
    }
    if view.eds.dom() != Set::<Seq<char>>::empty() {
        assert(arms[1 + r + t + c] == Arm::Eds);
        assert(exists|n: Seq<char>| #[trigger] view.eds.contains_key(n)) by {
            if forall|n: Seq<char>| !#[trigger] view.eds.contains_key(n) {
                assert(view.eds.dom() =~= Set::<Seq<char>>::empty());
            }
        }
    } else {
        assert forall|n: Seq<char>| !#[trigger] view.eds.contains_key(n) by {
            assert(!view.eds.dom().contains(n));
        }
    }
}

/// Every event can be handled as long as the clock can tell the end of a grace period
/// and there are as many watch numbers left as the event names clusters, or one.
pub proof fn law_events_fit_while_there_is_room(
    pre: CascadeView,
    event: CascadeEvent,
    now: u128,
)
    requires
        now + 5_000_000_000 <= u128::MAX,
        pre.next_watch < u64::MAX,
        forall|config: RouteConfigResource|
            (event matches CascadeEvent::Lds(Some(ResourceEvent::ResourceChanged {
                result: Ok(listener),
            })) && listener.route_source == RouteSource::Inline(config)) || event
                == CascadeEvent::Rds(
                Some(ResourceEvent::ResourceChanged { result: Ok(config) }),
            ) ==> pre.next_watch + (#[trigger] config.references()).len() <= u64::MAX,
    ensures
        event_fits(pre, event, now),
{
    match event {
        CascadeEvent::Lds(Some(ResourceEvent::ResourceChanged { result: Ok(listener) })) => {
            match listener.route_source {
                RouteSource::Inline(config) => {
                    lemma_distinct(config.references());
                    lemma_absent(pre.cds, distinct(config.references()));
                    assert(pre.next_watch + config.references().len() <= u64::MAX);
                },
                RouteSource::Rds(_) => {},
            }
        },
        CascadeEvent::Rds(Some(ResourceEvent::ResourceChanged { result: Ok(config) })) => {
            lemma_distinct(config.references());
            lemma_absent(pre.cds, distinct(config.references()));
            assert(pre.next_watch + config.references().len() <= u64::MAX);
        },
        _ => {},
    }
}

/// An event fits in a cascade exactly if it fits the handler of its watch.
pub proof fn law_handlers_take_what_fits(
    pre: CascadeView,
    listener: ResourceEvent<ListenerResource>,
    config: ResourceEvent<RouteConfigResource>,
    n: String,
    cluster: ResourceEvent<ClusterResource>,
    now: u128,
)
    ensures
        event_fits(pre, CascadeEvent::Lds(Some(listener)), now) <==> lds_fits(pre, listener, now),
        event_fits(pre, CascadeEvent::Rds(Some(config)), now) <==> rds_fits(pre, config, now),
        event_fits(pre, CascadeEvent::Cds(n, Some(cluster)), now) <==> cds_fits(pre, n@, cluster),
{
}

/// A new cascade watches nothing and has nothing on its way out.
pub proof fn law_initial_cascade_is_empty(n: Seq<char>)
    ensures
        ({
            let view = CascadeView::initial();
            &&& view.rds is None
            &&& !view.cds.contains_key(n)
            &&& !view.eds.contains_key(n)
            &&& !view.eds_names.contains_key(n)
            &&& !view.pending.contains_key(n)
        }),
{
}

} // verus!
