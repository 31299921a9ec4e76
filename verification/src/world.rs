//! The cascade together with what its actions reach: the clusters' clients and
//! the routes that requests follow. What is proved here is what requests rely
//! on: a routed request finds a client.

use crate::cascade::{
    event_fits, removal_step, stepped, watch_actions, ActionView, CascadeEvent, CascadeView,
    CLUSTER_REMOVAL_GRACE,
};
use crate::cascade_laws::{
    closes_endpoints, config_in, drops, ends_endpoint_watch, held,
    law_config_partitions_watched_clusters, law_endpoints_held_through_grace,
    law_held_through_grace, law_steps_preserve_wf, law_torn_down_after_grace, lemma_teardown_drops,
    lemma_with_config, partitioned, renames_endpoints, takes_down, watches_distinct, within_grace,
};
use crate::cluster_sync::{registry_after, registry_fits};
use crate::keyed::lists;
use crate::lb::{forwarded, CallError};
use crate::registry::{lemma_with_added, lemma_with_kept, ClusterClient, RegistryView};
use crate::resource::{distinct, lemma_distinct, RouteConfigResource};
use vstd::prelude::*;

verus! {

/// What requests meet: the clients, and the clusters that the published routes
/// name.
pub struct Published {
    pub registry: RegistryView,
    pub routed: Set<Seq<char>>,
}

/// What requests meet once an action has been performed.
pub open spec fn action_after(pre: Published, action: ActionView) -> Published {
    Published {
        registry: registry_after(pre.registry, action),
        routed: match action {
            ActionView::PublishRouteConfig(config) => config.clusters(),
            _ => pre.routed,
        },
    }
}

/// What requests meet once some actions have been performed in order.
pub open spec fn actions_after(pre: Published, actions: Seq<ActionView>) -> Published
    decreases actions.len(),
{
    if actions.len() == 0 {
        pre
    } else {
        action_after(actions_after(pre, actions.drop_last()), actions.last())
    }
}

/// There are client numbers left for each of the actions.
pub open spec fn actions_fit(pre: Published, actions: Seq<ActionView>) -> bool {
    forall|i: int|
        0 <= i < actions.len() ==> registry_fits(
            actions_after(pre, actions.take(i)).registry,
            #[trigger] actions[i],
        )
}

/// The cascade and what requests meet.
pub struct World {
    pub cascade: CascadeView,
    pub published: Published,
}

/// Every cluster of the published routes has a client.
pub open spec fn routes_served(published: Published) -> bool {
    published.routed.subset_of(published.registry.clients.dom())
}

impl World {
    /// Nothing watched, no routes, no clients.
    pub open spec fn initial() -> World {
        World {
            cascade: CascadeView::initial(),
            published: Published { registry: RegistryView::initial(), routed: Set::empty() },
        }
    }

    /// The parts are well-formed, and every watched cluster has a client.
    pub open spec fn wf(self) -> bool {
        &&& self.cascade.wf()
        &&& watches_distinct(self.cascade)
        &&& self.published.registry.wf()
        &&& self.cascade.cds.dom().subset_of(self.published.registry.clients.dom())
    }

    /// Moreover every routed cluster has a client, and none of them is on its
    /// way out.
    pub open spec fn inv(self) -> bool {
        &&& self.wf()
        &&& routes_served(self.published)
        &&& self.cascade.pending.dom().disjoint(self.published.routed)
    }

    /// The watches of the routed clusters are open.
    pub open spec fn routes_watched(self) -> bool {
        self.published.routed.subset_of(self.cascade.cds.dom())
    }
}

/// An event at `now` takes the world from `pre` to `post` by way of `actions`.
pub open spec fn world_step(
    pre: World,
    event: CascadeEvent,
    now: u128,
    actions: Seq<ActionView>,
    post: World,
) -> bool {
    &&& event_fits(pre.cascade, event, now)
    &&& stepped(pre.cascade, event, now, post.cascade, Some(actions))
    &&& actions_fit(pre.published, actions)
    &&& post.published == actions_after(pre.published, actions)
}

/// The event does not tear clusters down while the watch of a routed cluster is
/// closed.
pub open spec fn routes_spared(pre: World, event: CascadeEvent, now: u128) -> bool {
    event is Removal && pre.cascade.due(now) != Set::<Seq<char>>::empty() ==> pre.routes_watched()
}

/// The world starts in order.
pub proof fn law_initial_world()
    ensures
        World::initial().inv(),
        World::initial().routes_watched(),
{
}

/// An action that neither publishes nor touches the clients.
spec fn inert(action: ActionView) -> bool {
    !(action is AddClusters) && !(action is EvictClusters) && !(action is PublishRouteConfig)
}

/// Inert actions change nothing for requests.
proof fn lemma_inert(pre: Published, actions: Seq<ActionView>)
    requires
        forall|i: int| 0 <= i < actions.len() ==> inert(#[trigger] actions[i]),
    ensures
        actions_after(pre, actions) == pre,
        forall|i: int|
            0 <= i <= actions.len() ==> #[trigger] actions_after(pre, actions.take(i)) == pre,
    decreases actions.len(),
{
    if actions.len() > 0 {
        let before = actions.drop_last();
        assert forall|i: int| 0 <= i < before.len() implies inert(#[trigger] before[i]) by {
            assert(before[i] == actions[i]);
        }
        lemma_inert(pre, before);
        assert(inert(actions[actions.len() - 1]));
        assert forall|i: int| 0 <= i <= actions.len() implies #[trigger] actions_after(
            pre,
            actions.take(i),
        ) == pre by {
            if i < actions.len() {
                assert(before.take(i) =~= actions.take(i));
            } else {
                assert(actions.take(i) =~= actions);
            }
        }
    } else {
        assert forall|i: int| 0 <= i <= actions.len() implies #[trigger] actions_after(
            pre,
            actions.take(i),
        ) == pre by {
            assert(actions.take(i) =~= actions);
        }
    }
}

/// Actions in two parts are performed one part after the other.
proof fn lemma_concat(pre: Published, a: Seq<ActionView>, b: Seq<ActionView>)
    ensures
        actions_after(pre, a + b) == actions_after(actions_after(pre, a), b),
        forall|i: int|
            0 <= i <= a.len() ==> #[trigger] actions_after(pre, (a + b).take(i)) == actions_after(
                pre,
                a.take(i),
            ),
        forall|i: int|
            a.len() <= i <= a.len() + b.len() ==> #[trigger] actions_after(pre, (a + b).take(i))
                == actions_after(actions_after(pre, a), b.take(i - a.len())),
    decreases b.len(),
{
    if b.len() == 0 {
        assert(a + b =~= a);
    } else {
        assert((a + b).drop_last() =~= a + b.drop_last());
        lemma_concat(pre, a, b.drop_last());
    }
    assert forall|i: int| 0 <= i <= a.len() implies #[trigger] actions_after(pre, (a + b).take(i))
        == actions_after(pre, a.take(i)) by {
        assert((a + b).take(i) =~= a.take(i));
    }
    assert forall|i: int| a.len() <= i <= a.len() + b.len() implies #[trigger] actions_after(
        pre,
        (a + b).take(i),
    ) == actions_after(actions_after(pre, a), b.take(i - a.len())) by {
        if i < a.len() + b.len() {
            let c = b.drop_last();
            assert((a + b).take(i) =~= (a + c).take(i));
            assert(b.take(i - a.len()) =~= c.take(i - a.len()));
        } else {
            assert((a + b).take(i) =~= a + b);
            assert(b.take(i - a.len()) =~= b);
        }
    }
}

/// What requests meet while actions are performed that begin with inert ones,
/// go on with the clients and the publication of `config`, and end with inert
/// ones.
proof fn lemma_publication(
    pre: Published,
    head: Seq<ActionView>,
    config: RouteConfigResource,
    tail: Seq<ActionView>,
)
    requires
        pre.registry.wf(),
        forall|i: int| 0 <= i < head.len() ==> inert(#[trigger] head[i]),
        forall|i: int| 0 <= i < tail.len() ==> inert(#[trigger] tail[i]),
        actions_fit(
            pre,
            head + (seq![
                ActionView::AddClusters(distinct(config.references())),
                ActionView::PublishRouteConfig(config),
            ] + tail),
        ),
    ensures
        ({
            let actions = head + (seq![
                ActionView::AddClusters(distinct(config.references())),
                ActionView::PublishRouteConfig(config),
            ] + tail);
            let post = actions_after(pre, actions);
            &&& post.routed == config.clusters()
            &&& post.registry == pre.registry.with_added(distinct(config.references()))
            &&& post.registry.wf()
            &&& post.registry.clients.dom() == pre.registry.clients.dom().union(config.clusters())
            &&& routes_served(pre) ==> forall|i: int|
                0 <= i <= actions.len() ==> routes_served(
                    #[trigger] actions_after(pre, actions.take(i)),
                )
            &&& forall|i: int, n: Seq<char>|
                #![trigger actions_after(pre, actions.take(i)).registry.clients.contains_key(n)]
                0 <= i <= actions.len() && pre.registry.clients.contains_key(n)
                    ==> actions_after(pre, actions.take(i)).registry.clients.contains_key(n)
                    && actions_after(pre, actions.take(i)).registry.clients[n]
                    == pre.registry.clients[n]
        }),
{
    let names = distinct(config.references());
    let core = seq![ActionView::AddClusters(names), ActionView::PublishRouteConfig(config)];
    let rest = core + tail;
    let actions = head + rest;
    lemma_distinct(config.references());
    lemma_inert(pre, head);
    lemma_concat(pre, head, rest);
    lemma_concat(pre, core, tail);
    assert(actions.take(head.len() as int) =~= head);
    assert(actions[head.len() as int] == ActionView::AddClusters(names));
    assert(registry_fits(
        actions_after(pre, actions.take(head.len() as int)).registry,
        actions[head.len() as int],
    ));
    lemma_with_added(pre.registry, names);
    assert(core.drop_last() =~= seq![ActionView::AddClusters(names)]);
    assert(core.drop_last().drop_last() =~= Seq::<ActionView>::empty());
    let added = Published { registry: pre.registry.with_added(names), ..pre };
    let done = Published { routed: config.clusters(), ..added };
    reveal_with_fuel(actions_after, 3);
    assert(actions_after(pre, core.drop_last()) == added);
    assert(actions_after(pre, core) == done);
    lemma_inert(done, tail);
    assert forall|i: int| 0 <= i <= actions.len() implies {
        let now = #[trigger] actions_after(pre, actions.take(i));
        now == pre || now == added || now == done
    } by {
        if i <= head.len() {
            assert(actions_after(pre, actions.take(i)) == actions_after(pre, head.take(i)));
        } else {
            let j = i - head.len();
            assert(actions_after(pre, actions.take(i)) == actions_after(pre, rest.take(j)));
            if j == 1 {
                assert(rest.take(1) =~= core.drop_last());
            } else if j == 2 {
                assert(rest.take(2) =~= core);
            } else {
                assert(actions_after(pre, rest.take(j)) == actions_after(done, tail.take(j - 2)));
            }
        }
    }
    assert(config.clusters() == names.to_set());
    assert(routes_served(pre) ==> routes_served(added)) by {
        assert(pre.registry.clients.dom().subset_of(added.registry.clients.dom()));
    }
    assert(routes_served(done));
    assert forall|n: Seq<char>| #[trigger] pre.registry.clients.contains_key(n) implies
        added.registry.clients.contains_key(n) && added.registry.clients[n]
        == pre.registry.clients[n] by {
        assert(added.registry.clients.dom().contains(n));
    }
    assert forall|i: int, n: Seq<char>|
        #![trigger actions_after(pre, actions.take(i)).registry.clients.contains_key(n)]
        0 <= i <= actions.len() && pre.registry.clients.contains_key(n) implies actions_after(
        pre,
        actions.take(i),
    ).registry.clients.contains_key(n) && actions_after(pre, actions.take(i)).registry.clients[n]
        == pre.registry.clients[n] by {
        let now = actions_after(pre, actions.take(i));
        assert(now == pre || now == added || now == done);
    }
    assert(actions.take(actions.len() as int) =~= actions);
}

/// The actions by which a configuration comes into force, in three parts.
proof fn lemma_config_actions(
    pre: CascadeView,
    event: CascadeEvent,
    now: u128,
    post: CascadeView,
    actions: Seq<ActionView>,
) -> (parts: (Seq<ActionView>, Seq<ActionView>))
    requires
        stepped(pre, event, now, post, Some(actions)),
        config_in(event) is Some,
    ensures
        forall|i: int| 0 <= i < parts.0.len() ==> inert(#[trigger] parts.0[i]),
        forall|i: int| 0 <= i < parts.1.len() ==> inert(#[trigger] parts.1[i]),
        actions == parts.0 + (seq![
            ActionView::AddClusters(distinct(config_in(event)->0.references())),
            ActionView::PublishRouteConfig(config_in(event)->0),
        ] + parts.1),
        post.cds == pre.with_config(config_in(event)->0, now).cds,
        post.pending == pre.with_config(config_in(event)->0, now).pending,
{
    let config = config_in(event)->0;
    let names = distinct(config.references());
    let cleared = match event {
        CascadeEvent::Lds(_) => CascadeView { rds: None, ..pre },
        _ => pre,
    };
    let head = match event {
        CascadeEvent::Lds(_) => pre.drop_rds(),
        _ => Seq::empty(),
    };
    let tail = watch_actions(cleared.unwatched(names), cleared.next_watch) + seq![
        ActionView::Acknowledge,
    ];
    assert(actions =~= head + (seq![
        ActionView::AddClusters(names),
        ActionView::PublishRouteConfig(config),
    ] + tail));
    (head, tail)
}

/// What requests meet while the removal timer's actions are performed.
proof fn lemma_removal_actions(
    pre: CascadeView,
    published: Published,
    now: u128,
    post: CascadeView,
    actions: Seq<ActionView>,
)
    requires
        removal_step(pre, now, post, actions),
    ensures
        forall|i: int|
            0 <= i <= actions.len() ==> {
                let met = #[trigger] actions_after(published, actions.take(i));
                met == published || (met == Published {
                    registry: published.registry.with_kept(post.cds.dom()),
                    ..published
                } && pre.due(now) != Set::<Seq<char>>::empty() && i == actions.len())
            },
        actions_after(published, actions) == (if pre.due(now) == Set::<Seq<char>>::empty() {
            published
        } else {
            Published { registry: published.registry.with_kept(post.cds.dom()), ..published }
        }),
{
    if pre.due(now) == Set::<Seq<char>>::empty() {
        lemma_inert(published, actions);
    } else {
        let order = choose|order: Seq<Seq<char>>| #[trigger]
            lists(order, pre.due(now)) && actions == pre.teardown(order) + seq![
                ActionView::EvictClusters(post.cds.dom()),
            ];
        let torn = pre.teardown(order);
        let evict = seq![ActionView::EvictClusters(post.cds.dom())];
        lemma_teardown_drops(pre, order);
        assert forall|i: int| 0 <= i < torn.len() implies inert(#[trigger] torn[i]) by {
            assert(drops(pre.teardown(order)[i]));
        }
        lemma_inert(published, torn);
        lemma_concat(published, torn, evict);
        assert(evict.drop_last() =~= Seq::<ActionView>::empty());
        reveal_with_fuel(actions_after, 2);
        assert forall|i: int| 0 <= i <= actions.len() implies {
            let met = #[trigger] actions_after(published, actions.take(i));
            met == published || (met == Published {
                registry: published.registry.with_kept(post.cds.dom()),
                ..published
            } && i == actions.len())
        } by {
            if i <= torn.len() {
                assert(actions_after(published, actions.take(i)) == actions_after(
                    published,
                    torn.take(i),
                ));
            } else {
                assert(actions.take(i) =~= actions);
            }
        }
    }
}

/// An event that neither configures nor tears down has inert actions.
proof fn lemma_other_actions(
    pre: CascadeView,
    event: CascadeEvent,
    now: u128,
    post: CascadeView,
    actions: Seq<ActionView>,
)
    requires
        stepped(pre, event, now, post, Some(actions)),
        config_in(event) is None,
        !(event is Removal),
    ensures
        forall|i: int| 0 <= i < actions.len() ==> inert(#[trigger] actions[i]),
        post.pending == pre.pending,
        post.cds.dom().subset_of(pre.cds.dom()),
        !(event matches CascadeEvent::Cds(_, None)) ==> post.cds == pre.cds,
{
    match event {
        CascadeEvent::Lds(Some(e)) => {},
        CascadeEvent::Cds(cluster, Some(e)) => {},
        _ => {},
    }
}

/// Every watched cluster has a client, whatever happens.
pub proof fn law_watched_clusters_have_clients(
    pre: World,
    event: CascadeEvent,
    now: u128,
    actions: Seq<ActionView>,
    post: World,
)
    requires
        pre.wf(),
        world_step(pre, event, now, actions, post),
    ensures
        post.wf(),
{
    law_steps_preserve_wf(pre.cascade, event, now, post.cascade, Some(actions));
    if let Some(config) = config_in(event) {
        let parts = lemma_config_actions(pre.cascade, event, now, post.cascade, actions);
        lemma_publication(pre.published, parts.0, config, parts.1);
        lemma_with_config(pre.cascade, config, now);
        assert(post.cascade.cds.dom().subset_of(post.published.registry.clients.dom()));
    } else if event is Removal {
        lemma_removal_actions(pre.cascade, pre.published, now, post.cascade, actions);
        lemma_with_kept(pre.published.registry, post.cascade.cds.dom());
        assert(post.cascade.cds.dom().subset_of(pre.cascade.cds.dom()));
    } else {
        lemma_other_actions(pre.cascade, event, now, post.cascade, actions);
        lemma_inert(pre.published, actions);
    }
}

/// A request routed on the published configuration always finds the client of
/// its cluster: at every point of time between two actions, every routed
/// cluster has a client.
///
/// This leaves out that clusters are torn down while the watch of a routed one
/// is closed: the client of that one is evicted with them.
pub proof fn law_routed_clusters_have_clients(
    pre: World,
    event: CascadeEvent,
    now: u128,
    actions: Seq<ActionView>,
    post: World,
)
    requires
        pre.inv(),
        world_step(pre, event, now, actions, post),
        routes_spared(pre, event, now),
    ensures
        post.inv(),
        forall|i: int|
            0 <= i <= actions.len() ==> routes_served(
                #[trigger] actions_after(pre.published, actions.take(i)),
            ),
{
    law_watched_clusters_have_clients(pre, event, now, actions, post);
    if let Some(config) = config_in(event) {
        let parts = lemma_config_actions(pre.cascade, event, now, post.cascade, actions);
        lemma_publication(pre.published, parts.0, config, parts.1);
        lemma_with_config(pre.cascade, config, now);
        assert(post.cascade.pending.dom().disjoint(post.published.routed)) by {
            assert forall|n: Seq<char>| !(post.cascade.pending.dom().contains(n)
                && post.published.routed.contains(n)) by {
                assert(post.cascade.pending.contains_key(n) == (!config.clusters().contains(n) && (
                pre.cascade.pending.contains_key(n) || pre.cascade.cds.contains_key(n))));
            }
        }
    } else if event is Removal {
        lemma_removal_actions(pre.cascade, pre.published, now, post.cascade, actions);
        let keep = post.cascade.cds.dom();
        lemma_with_kept(pre.published.registry, keep);
        let due = pre.cascade.due(now);
        if due == Set::<Seq<char>>::empty() {
            assert(post.cascade.cds =~= pre.cascade.cds);
            assert(post.cascade.pending =~= pre.cascade.pending);
        } else {
            assert(keep.subset_of(pre.cascade.cds.dom()));
            assert(pre.published.routed.subset_of(keep)) by {
                assert forall|n: Seq<char>| pre.published.routed.contains(n) implies keep.contains(
                    n,
                ) by {
                    assert(pre.cascade.cds.dom().contains(n));
                    assert(!pre.cascade.pending.dom().contains(n));
                    assert(!due.contains(n));
                }
            }
        }
    } else {
        lemma_other_actions(pre.cascade, event, now, post.cascade, actions);
        lemma_inert(pre.published, actions);
    }
}

/// As long as no watch of a cluster closes, the watches of the routed clusters
/// are open.
pub proof fn law_routed_clusters_stay_watched(
    pre: World,
    event: CascadeEvent,
    now: u128,
    actions: Seq<ActionView>,
    post: World,
)
    requires
        pre.inv(),
        pre.routes_watched(),
        world_step(pre, event, now, actions, post),
        !(event matches CascadeEvent::Cds(_, None)),
    ensures
        post.inv(),
        post.routes_watched(),
{
    law_routed_clusters_have_clients(pre, event, now, actions, post);
    if let Some(config) = config_in(event) {
        let parts = lemma_config_actions(pre.cascade, event, now, post.cascade, actions);
        lemma_publication(pre.published, parts.0, config, parts.1);
        lemma_with_config(pre.cascade, config, now);
    } else if event is Removal {
        lemma_removal_actions(pre.cascade, pre.published, now, post.cascade, actions);
        assert forall|n: Seq<char>| post.published.routed.contains(n) implies
            post.cascade.cds.dom().contains(n) by {
            assert(pre.cascade.cds.dom().contains(n));
            assert(!pre.cascade.pending.dom().contains(n));
            assert(!pre.cascade.due(now).contains(n));
        }
    } else {
        lemma_other_actions(pre.cascade, event, now, post.cascade, actions);
        lemma_inert(pre.published, actions);
    }
}

/// As long as no watch of a cluster closes, every watched cluster is either routed
/// or on its way out, and never both.
pub proof fn law_step_partitions_watched_clusters(
    pre: World,
    event: CascadeEvent,
    now: u128,
    actions: Seq<ActionView>,
    post: World,
)
    requires
        pre.wf(),
        partitioned(pre.cascade, pre.published.routed),
        world_step(pre, event, now, actions, post),
        !(event matches CascadeEvent::Cds(_, None)),
    ensures
        post.wf(),
        partitioned(post.cascade, post.published.routed),
{
    law_watched_clusters_have_clients(pre, event, now, actions, post);
    if let Some(config) = config_in(event) {
        let parts = lemma_config_actions(pre.cascade, event, now, post.cascade, actions);
        lemma_publication(pre.published, parts.0, config, parts.1);
        assert(pre.cascade.pending.dom().subset_of(pre.cascade.cds.dom()));
        law_config_partitions_watched_clusters(pre.cascade, config, now);
    } else if event is Removal {
        lemma_removal_actions(pre.cascade, pre.published, now, post.cascade, actions);
        let due = pre.cascade.due(now);
        assert forall|n: Seq<char>| due.contains(n) implies !pre.published.routed.contains(n) by {
            assert(pre.cascade.pending.dom().contains(n));
        }
        assert forall|n: Seq<char>| post.cascade.cds.dom().contains(n) == (
        post.published.routed.contains(n) || post.cascade.pending.dom().contains(n)) by {
            assert(pre.cascade.cds.dom().contains(n) == pre.published.routed.union(
                pre.cascade.pending.dom(),
            ).contains(n));
        }
        assert(post.cascade.cds.dom() =~= post.published.routed.union(post.cascade.pending.dom()));
        assert forall|n: Seq<char>| !(post.cascade.pending.dom().contains(n)
            && post.published.routed.contains(n)) by {
            assert(post.cascade.pending.dom().contains(n) ==> pre.cascade.pending.dom().contains(
                n,
            ));
        }
    } else {
        lemma_other_actions(pre.cascade, event, now, post.cascade, actions);
        lemma_inert(pre.published, actions);
    }
}

/// In every history without a closed cluster watch, from the start on, the watched
/// clusters are exactly the routed ones and those on their way out, and no cluster
/// is both.
pub proof fn law_watched_clusters_are_routed_or_leaving(
    worlds: Seq<World>,
    events: Seq<(CascadeEvent, u128)>,
    actions: Seq<Seq<ActionView>>,
    k: int,
)
    requires
        history(worlds, events, actions),
        worlds[0] == World::initial(),
        forall|j: int|
            0 <= j < events.len() ==> !((#[trigger] events[j]).0 matches CascadeEvent::Cds(
                _,
                None,
            )),
        0 <= k <= events.len(),
    ensures
        worlds[k].wf(),
        worlds[k].cascade.cds.dom() == worlds[k].published.routed.union(
            worlds[k].cascade.pending.dom(),
        ),
        worlds[k].cascade.pending.dom().disjoint(worlds[k].published.routed),
    decreases k,
{
    if k == 0 {
        law_initial_world();
        assert(worlds[0].cascade.cds.dom() =~= worlds[0].published.routed.union(
            worlds[0].cascade.pending.dom(),
        ));
    } else {
        law_watched_clusters_are_routed_or_leaving(worlds, events, actions, k - 1);
        let e = events[k - 1];
        law_step_partitions_watched_clusters(worlds[k - 1], e.0, e.1, actions[k - 1], worlds[k]);
    }
}

/// A request for a routed cluster is given to that cluster's client.
pub proof fn law_routed_request_is_forwarded(
    published: Published,
    cluster: Seq<char>,
    r: Result<ClusterClient, CallError>,
)
    requires
        routes_served(published),
        published.routed.contains(cluster),
        forwarded(published.registry, seq![cluster], r),
    ensures
        r is Ok,
        r->Ok_0@ == (cluster, published.registry.clients[cluster]),
{
    assert(published.registry.clients.dom().contains(cluster));
}

/// Within its grace period a cluster keeps the client that it has, and its
/// watch, whatever happens: a request routed on an earlier configuration drains
/// against a live client, and a cluster that is dropped and restored keeps its
/// warm one.
pub proof fn law_client_kept_through_grace(
    pre: World,
    event: CascadeEvent,
    now: u128,
    actions: Seq<ActionView>,
    post: World,
    n: Seq<char>,
    watch: u64,
    deadline: u128,
)
    requires
        pre.wf(),
        world_step(pre, event, now, actions, post),
        held(pre.cascade, n, watch, deadline),
        within_grace(event, now, n, deadline),
    ensures
        held(post.cascade, n, watch, deadline),
        forall|i: int|
            0 <= i <= actions.len() ==> {
                let met = #[trigger] actions_after(pre.published, actions.take(i));
                &&& met.registry.clients.contains_key(n)
                &&& met.registry.clients[n] == pre.published.registry.clients[n]
            },
        post.published.registry.clients.contains_key(n),
        post.published.registry.clients[n] == pre.published.registry.clients[n],
{
    law_held_through_grace(
        pre.cascade,
        event,
        now,
        post.cascade,
        Some(actions),
        n,
        watch,
        deadline,
    );
    assert(pre.cascade.cds.dom().contains(n));
    assert(pre.published.registry.clients.contains_key(n));
    if let Some(config) = config_in(event) {
        let parts = lemma_config_actions(pre.cascade, event, now, post.cascade, actions);
        lemma_publication(pre.published, parts.0, config, parts.1);
        assert forall|i: int| 0 <= i <= actions.len() implies {
            let met = #[trigger] actions_after(pre.published, actions.take(i));
            &&& met.registry.clients.contains_key(n)
            &&& met.registry.clients[n] == pre.published.registry.clients[n]
        } by {
            let met = actions_after(pre.published, actions.take(i));
            assert(met.registry.clients.contains_key(n));
        }
    } else if event is Removal {
        lemma_removal_actions(pre.cascade, pre.published, now, post.cascade, actions);
        assert(post.cascade.cds.dom().contains(n));
    } else {
        lemma_other_actions(pre.cascade, event, now, post.cascade, actions);
        lemma_inert(pre.published, actions);
    }
    assert(actions.take(actions.len() as int) =~= actions);
}

/// Once the grace period of a cluster is over, the removal timer leaves it
/// without a client.
pub proof fn law_client_evicted_after_grace(
    pre: World,
    now: u128,
    actions: Seq<ActionView>,
    post: World,
    n: Seq<char>,
)
    requires
        pre.wf(),
        world_step(pre, CascadeEvent::Removal, now, actions, post),
        pre.cascade.pending.contains_key(n),
        pre.cascade.pending[n] <= now,
    ensures
        !post.published.registry.clients.contains_key(n),
        !post.cascade.cds.contains_key(n),
{
    law_torn_down_after_grace(pre.cascade, now, post.cascade, actions, n);
    lemma_removal_actions(pre.cascade, pre.published, now, post.cascade, actions);
    assert(pre.cascade.due(now).contains(n));
}

/// A history of the world: `worlds` one after the other, each led to the next by
/// an event at a time.
pub open spec fn history(
    worlds: Seq<World>,
    events: Seq<(CascadeEvent, u128)>,
    actions: Seq<Seq<ActionView>>,
) -> bool {
    &&& worlds.len() == events.len() + 1
    &&& actions.len() == events.len()
    &&& forall|k: int|
        0 <= k < events.len() ==> world_step(
            worlds[k],
            (#[trigger] events[k]).0,
            events[k].1,
            actions[k],
            worlds[k + 1],
        )
}

/// In every history, from the start on, every routed cluster has a client at
/// every point of time between two actions.
///
/// This leaves out the histories in which clusters are torn down while the watch
/// of a routed one is closed; [`law_routed_clusters_stay_watched`] says that the
/// watch of a cluster has to close for that.
pub proof fn law_requests_always_find_clients(
    worlds: Seq<World>,
    events: Seq<(CascadeEvent, u128)>,
    actions: Seq<Seq<ActionView>>,
    k: int,
)
    requires
        history(worlds, events, actions),
        worlds[0] == World::initial(),
        forall|j: int|
            0 <= j < events.len() ==> routes_spared(
                worlds[j],
                (#[trigger] events[j]).0,
                events[j].1,
            ),
        0 <= k <= events.len(),
    ensures
        worlds[k].inv(),
        k < events.len() ==> forall|i: int|
            0 <= i <= actions[k].len() ==> routes_served(
                #[trigger] actions_after(worlds[k].published, actions[k].take(i)),
            ),
    decreases k,
{
    if k == 0 {
        law_initial_world();
    } else {
        law_requests_always_find_clients(worlds, events, actions, k - 1);
        let e = events[k - 1];
        law_routed_clusters_have_clients(worlds[k - 1], e.0, e.1, actions[k - 1], worlds[k]);
    }
    if k < events.len() {
        let e = events[k];
        law_routed_clusters_have_clients(worlds[k], e.0, e.1, actions[k], worlds[k + 1]);
    }
}

/// In every history without a closed cluster watch, from the start on, the
/// watches of the routed clusters are open and [`law_requests_always_find_clients`]
/// leaves nothing out.
pub proof fn law_open_watches_spare_routes(
    worlds: Seq<World>,
    events: Seq<(CascadeEvent, u128)>,
    actions: Seq<Seq<ActionView>>,
    k: int,
)
    requires
        history(worlds, events, actions),
        worlds[0] == World::initial(),
        forall|j: int|
            0 <= j < events.len() ==> !((#[trigger] events[j]).0 matches CascadeEvent::Cds(
                _,
                None,
            )),
        0 <= k <= events.len(),
    ensures
        worlds[k].inv(),
        worlds[k].routes_watched(),
        k < events.len() ==> routes_spared(worlds[k], events[k].0, events[k].1),
    decreases k,
{
    if k == 0 {
        law_initial_world();
    } else {
        law_open_watches_spare_routes(worlds, events, actions, k - 1);
        let e = events[k - 1];
        law_routed_clusters_stay_watched(worlds[k - 1], e.0, e.1, actions[k - 1], worlds[k]);
    }
}

/// A history that starts with `n` watched and not on its way out, and whose events come
/// at the time `start` or later. The removal timer fires within the grace period from
/// `start` on, and the watch of the cluster itself does not close.
pub open spec fn grace_history(
    worlds: Seq<World>,
    events: Seq<(CascadeEvent, u128)>,
    actions: Seq<Seq<ActionView>>,
    n: Seq<char>,
    start: u128,
) -> bool {
    &&& history(worlds, events, actions)
    &&& worlds[0].wf()
    &&& worlds[0].cascade.cds.contains_key(n)
    &&& !worlds[0].cascade.pending.contains_key(n)
    &&& start + CLUSTER_REMOVAL_GRACE <= u128::MAX
    &&& forall|j: int|
        0 <= j < events.len() ==> {
            &&& start <= (#[trigger] events[j]).1
            &&& events[j].0 is Removal ==> events[j].1 < start + CLUSTER_REMOVAL_GRACE
            &&& !(events[j].0 matches CascadeEvent::Cds(cluster, None) && cluster@ == n)
        }
}

/// A cluster that is watched and not on its way out at the time `start` keeps its
/// watch, its cached resources and its client for the whole grace period from then
/// on, through every history: whichever configurations come and go, no sooner than
/// at `start + CLUSTER_REMOVAL_GRACE` is it torn down.
pub proof fn law_grace_period_is_kept(
    worlds: Seq<World>,
    events: Seq<(CascadeEvent, u128)>,
    actions: Seq<Seq<ActionView>>,
    n: Seq<char>,
    start: u128,
    k: int,
)
    requires
        grace_history(worlds, events, actions, n, start),
        0 <= k <= events.len(),
    ensures
        worlds[k].wf(),
        worlds[k].cascade.cds.contains_key(n),
        worlds[k].cascade.cds[n] == worlds[0].cascade.cds[n],
        worlds[k].published.registry.clients.contains_key(n),
        worlds[k].published.registry.clients[n] == worlds[0].published.registry.clients[n],
        k < events.len() ==> forall|i: int|
            0 <= i <= actions[k].len() ==> {
                let met = #[trigger] actions_after(worlds[k].published, actions[k].take(i));
                &&& met.registry.clients.contains_key(n)
                &&& met.registry.clients[n] == worlds[0].published.registry.clients[n]
            },
        k < events.len() ==> forall|i: int|
            0 <= i < actions[k].len() ==> !takes_down(
                #[trigger] actions[k][i],
                n,
                worlds[0].cascade.cds[n],
            ),
{
    lemma_grace_period(worlds, events, actions, n, start, k);
    if k < events.len() {
        let e = events[k];
        let watch = worlds[0].cascade.cds[n];
        let deadline = (start + CLUSTER_REMOVAL_GRACE) as u128;
        law_client_kept_through_grace(
            worlds[k],
            e.0,
            e.1,
            actions[k],
            worlds[k + 1],
            n,
            watch,
            deadline,
        );
        law_held_through_grace(
            worlds[k].cascade,
            e.0,
            e.1,
            worlds[k + 1].cascade,
            Some(actions[k]),
            n,
            watch,
            deadline,
        );
    }
}

/// For the same time the endpoints of the cluster stay watched unless their own watch
/// closes; and as long as they do not move to another name, by the watch and under
/// the name that they had, and nothing that is done ends that watch.
pub proof fn law_endpoint_watch_is_kept_through_grace(
    worlds: Seq<World>,
    events: Seq<(CascadeEvent, u128)>,
    actions: Seq<Seq<ActionView>>,
    n: Seq<char>,
    start: u128,
    k: int,
)
    requires
        grace_history(worlds, events, actions, n, start),
        worlds[0].cascade.eds.contains_key(n),
        forall|j: int|
            0 <= j < events.len() ==> !closes_endpoints((#[trigger] events[j]).0, n),
        0 <= k <= events.len(),
    ensures
        worlds[k].cascade.eds.contains_key(n),
        (forall|j: int|
            0 <= j < k ==> !renames_endpoints(worlds[j].cascade, (#[trigger] events[j]).0, n))
            ==> {
            &&& worlds[k].cascade.eds[n] == worlds[0].cascade.eds[n]
            &&& worlds[k].cascade.eds_names.contains_key(n)
            &&& worlds[k].cascade.eds_names[n] == worlds[0].cascade.eds_names[n]
        },
        k > 0 && (forall|j: int|
            0 <= j < k ==> !renames_endpoints(worlds[j].cascade, (#[trigger] events[j]).0, n))
            ==> forall|i: int|
            0 <= i < actions[k - 1].len() ==> #[trigger] actions[k - 1][i]
                != ActionView::DropEndpointsWatch(worlds[0].cascade.eds[n]),
    decreases k,
{
    if k == 0 {
        assert(worlds[0].cascade.eds_names.contains_key(n));
    } else {
        law_endpoint_watch_is_kept_through_grace(worlds, events, actions, n, start, k - 1);
        lemma_grace_period(worlds, events, actions, n, start, k - 1);
        let e = events[k - 1];
        law_endpoints_held_through_grace(
            worlds[k - 1].cascade,
            e.0,
            e.1,
            worlds[k].cascade,
            Some(actions[k - 1]),
            n,
            worlds[0].cascade.cds[n],
            (start + CLUSTER_REMOVAL_GRACE) as u128,
        );
        if forall|j: int|
            0 <= j < k ==> !renames_endpoints(worlds[j].cascade, (#[trigger] events[j]).0, n) {
            assert(!renames_endpoints(worlds[k - 1].cascade, events[k - 1].0, n));
            assert forall|i: int| 0 <= i < actions[k - 1].len() implies #[trigger] actions[k - 1][i]
                != ActionView::DropEndpointsWatch(worlds[0].cascade.eds[n]) by {
                assert(!ends_endpoint_watch(worlds[k - 1].cascade, actions[k - 1][i], n));
            }
        }
    }
}

/// The hold on a cluster, through a history of its grace period.
proof fn lemma_grace_period(
    worlds: Seq<World>,
    events: Seq<(CascadeEvent, u128)>,
    actions: Seq<Seq<ActionView>>,
    n: Seq<char>,
    start: u128,
    k: int,
)
    requires
        grace_history(worlds, events, actions, n, start),
        0 <= k <= events.len(),
    ensures
        worlds[k].wf(),
        held(
            worlds[k].cascade,
            n,
            worlds[0].cascade.cds[n],
            (start + CLUSTER_REMOVAL_GRACE) as u128,
        ),
        worlds[k].published.registry.clients.contains_key(n),
        worlds[k].published.registry.clients[n] == worlds[0].published.registry.clients[n],
    decreases k,
{
    if k == 0 {
        assert(worlds[0].cascade.cds.dom().contains(n));
    } else {
        lemma_grace_period(worlds, events, actions, n, start, k - 1);
        let e = events[k - 1];
        law_watched_clusters_have_clients(
            worlds[k - 1],
            e.0,
            e.1,
            actions[k - 1],
            worlds[k],
        );
        law_client_kept_through_grace(
            worlds[k - 1],
            e.0,
            e.1,
            actions[k - 1],
            worlds[k],
            n,
            worlds[0].cascade.cds[n],
            (start + CLUSTER_REMOVAL_GRACE) as u128,
        );
    }
}

} // verus!
