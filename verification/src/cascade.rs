//! The LDS -> RDS -> CDS -> EDS cascade.
//!
//! Each level determines the subscriptions of the next. When the set of
//! clusters that the routes name changes, watches for new clusters are added
//! at once, while the watches, cached resources and clients of removed ones
//! are torn down only after [`CLUSTER_REMOVAL_GRACE`].
//!
//! [`CascadeState`] decides; what it decides is a list of [`CascadeAction`]s
//! that the owner of the control-plane connection, the cache and the cluster
//! clients performs in order.

use crate::keyed::{lemma_take_push, lists, views, KeyMap, KeySet};
use crate::numbering::{
    absent, lemma_absent, lemma_absent_prefix, lemma_number_all, number_all,
};
use crate::resource::{
    distinct, lemma_distinct, ClusterResource, EndpointsResource, ListenerResource,
    RouteConfigResource, RouteSource,
};
use crate::watchers::WatcherMap;
use vstd::prelude::*;

verus! {

/// How long a cluster that left the routes keeps its client, watches and
/// cached resources, in nanoseconds.
///
/// Requests already routed on the previous configuration still find a live
/// client for that long, and a cluster that is dropped and restored within it
/// keeps everything it had.
pub const CLUSTER_REMOVAL_GRACE: u128 = 5_000_000_000;

/// Why a resource could not be delivered.
#[derive(Debug, PartialEq, Eq)]
pub enum ResourceError {
    ResourceDoesNotExist,
    Other(String),
}

/// What a watch delivers.
#[derive(Debug, PartialEq, Eq)]
pub enum ResourceEvent<T> {
    /// The resource changed, or cannot be used any more.
    ResourceChanged { result: Result<T, ResourceError> },
    /// Something went wrong that leaves the last resource in force.
    AmbientError { error: ResourceError },
}

impl<T> ResourceEvent<T> {
    /// The resource that the event puts in force, if it does.
    pub open spec fn resource(self) -> Option<T> {
        match self {
            ResourceEvent::ResourceChanged { result: Ok(resource) } => Some(resource),
            _ => None,
        }
    }
}

/// One thing to be done on behalf of the cascade.
pub enum CascadeAction {
    /// Create clients for those of these clusters that have none.
    AddClusters(KeySet<String>),
    /// Drop the clients of all clusters but these.
    EvictClusters(KeySet<String>),
    /// Make this the route configuration that requests are routed on.
    PublishRouteConfig(RouteConfigResource),
    /// Cache the resource of a cluster.
    UpdateCluster { cluster: String, resource: ClusterResource },
    /// Cache the endpoints of a cluster.
    UpdateEndpoints { cluster: String, endpoints: EndpointsResource },
    /// Drop the cached resource of a cluster.
    RemoveCluster(String),
    /// Drop the cached endpoints of a cluster.
    RemoveEndpoints(String),
    /// Watch the listener of this name.
    WatchListener(String),
    /// Watch the route configuration of this name.
    WatchRouteConfig { name: String, watch: u64 },
    /// Watch the cluster of this name.
    WatchCluster { cluster: String, watch: u64 },
    /// Watch the endpoints published as `name` on behalf of `cluster`.
    WatchEndpoints { cluster: String, name: String, watch: u64 },
    /// End a watch of a route configuration.
    DropRouteConfigWatch(u64),
    /// End a watch of a cluster.
    DropClusterWatch(u64),
    /// End a watch of endpoints.
    DropEndpointsWatch(u64),
    /// Tell the control plane that the event has been processed.
    Acknowledge,
}

/// The view of a [`CascadeAction`].
pub enum ActionView {
    AddClusters(Seq<Seq<char>>),
    EvictClusters(Set<Seq<char>>),
    PublishRouteConfig(RouteConfigResource),
    UpdateCluster { cluster: Seq<char>, resource: ClusterResource },
    UpdateEndpoints { cluster: Seq<char>, endpoints: EndpointsResource },
    RemoveCluster(Seq<char>),
    RemoveEndpoints(Seq<char>),
    WatchListener(Seq<char>),
    WatchRouteConfig { name: Seq<char>, watch: u64 },
    WatchCluster { cluster: Seq<char>, watch: u64 },
    WatchEndpoints { cluster: Seq<char>, name: Seq<char>, watch: u64 },
    DropRouteConfigWatch(u64),
    DropClusterWatch(u64),
    DropEndpointsWatch(u64),
    Acknowledge,
}

impl View for CascadeAction {
    type V = ActionView;

    open spec fn view(&self) -> ActionView {
        match *self {
            CascadeAction::AddClusters(active) => ActionView::AddClusters(active.listed()),
            CascadeAction::EvictClusters(keep) => ActionView::EvictClusters(keep@),
            CascadeAction::PublishRouteConfig(config) => ActionView::PublishRouteConfig(config),
            CascadeAction::UpdateCluster { cluster, resource } => ActionView::UpdateCluster {
                cluster: cluster@,
                resource,
            },
            CascadeAction::UpdateEndpoints { cluster, endpoints } => ActionView::UpdateEndpoints {
                cluster: cluster@,
                endpoints,
            },
            CascadeAction::RemoveCluster(cluster) => ActionView::RemoveCluster(cluster@),
            CascadeAction::RemoveEndpoints(cluster) => ActionView::RemoveEndpoints(cluster@),
            CascadeAction::WatchListener(name) => ActionView::WatchListener(name@),
            CascadeAction::WatchRouteConfig { name, watch } => ActionView::WatchRouteConfig {
                name: name@,
                watch,
            },
            CascadeAction::WatchCluster { cluster, watch } => ActionView::WatchCluster {
                cluster: cluster@,
                watch,
            },
            CascadeAction::WatchEndpoints { cluster, name, watch } => ActionView::WatchEndpoints {
                cluster: cluster@,
                name: name@,
                watch,
            },
            CascadeAction::DropRouteConfigWatch(watch) => ActionView::DropRouteConfigWatch(watch),
            CascadeAction::DropClusterWatch(watch) => ActionView::DropClusterWatch(watch),
            CascadeAction::DropEndpointsWatch(watch) => ActionView::DropEndpointsWatch(watch),
            CascadeAction::Acknowledge => ActionView::Acknowledge,
        }
    }
}

/// What a [`CascadeState`] stands for.
pub struct CascadeView {
    /// The route configuration being watched, with its watch.
    pub rds: Option<(Seq<char>, u64)>,
    /// The watch of each cluster.
    pub cds: Map<Seq<char>, u64>,
    /// The watch of each cluster's endpoints.
    pub eds: Map<Seq<char>, u64>,
    /// The name under which each cluster's endpoints were last watched.
    pub eds_names: Map<Seq<char>, Seq<char>>,
    /// The clusters that left the routes, with the time of their teardown.
    pub pending: Map<Seq<char>, u128>,
    /// The next watch to be handed out.
    pub next_watch: nat,
}

/// The actions that register a watch for each of `names`, numbered from `next`.
pub open spec fn watch_actions(names: Seq<Seq<char>>, next: nat) -> Seq<ActionView> {
    Seq::new(
        names.len(),
        |i: int| ActionView::WatchCluster { cluster: names[i], watch: (next + i) as u64 },
    )
}

/// `pending` with an entry for each cluster of `old` that is not in `new`; an
/// entry that is there already keeps its time.
pub open spec fn mark_removed(
    pending: Map<Seq<char>, u128>,
    old: Set<Seq<char>>,
    new: Set<Seq<char>>,
    deadline: u128,
) -> Map<Seq<char>, u128> {
    Map::new(
        |n: Seq<char>| pending.contains_key(n) || (old.contains(n) && !new.contains(n)),
        |n: Seq<char>|
            if pending.contains_key(n) {
                pending[n]
            } else {
                deadline
            },
    )
}

impl CascadeView {
    /// Nothing watched, nothing pending.
    pub open spec fn initial() -> CascadeView {
        CascadeView {
            rds: None,
            cds: Map::empty(),
            eds: Map::empty(),
            eds_names: Map::empty(),
            pending: Map::empty(),
            next_watch: 0,
        }
    }

    /// Watches carry numbers that were handed out, and a cluster whose
    /// endpoints are watched has a name for them.
    pub open spec fn wf(self) -> bool {
        &&& self.rds matches Some((_, watch)) ==> watch < self.next_watch
        &&& forall|n: Seq<char>| #[trigger]
            self.cds.contains_key(n) ==> self.cds[n] < self.next_watch
        &&& forall|n: Seq<char>| #[trigger]
            self.eds.contains_key(n) ==> self.eds[n] < self.next_watch
                && self.eds_names.contains_key(n)
    }

    /// Those of `names` that are not watched yet, in order.
    pub open spec fn unwatched(self, names: Seq<Seq<char>>) -> Seq<Seq<char>> {
        absent(self.cds, names)
    }

    /// The route configuration of this name is the watched one.
    pub open spec fn watches_config(self, name: Seq<char>) -> bool {
        self.rds matches Some((watched, _)) && watched == name
    }

    /// The endpoints of the cluster `n` were last watched under this name.
    pub open spec fn watches_endpoints(self, n: Seq<char>, name: Seq<char>) -> bool {
        self.eds_names.contains_key(n) && self.eds_names[n] == name
    }

    /// The state once the routes name exactly the clusters `names`.
    pub open spec fn reconciled(self, names: Seq<Seq<char>>, now: u128) -> CascadeView {
        CascadeView {
            cds: number_all(self.cds, self.unwatched(names), self.next_watch),
            pending: mark_removed(
                self.pending.remove_keys(names.to_set()),
                self.cds.dom(),
                names.to_set(),
                (now + CLUSTER_REMOVAL_GRACE) as u128,
            ),
            next_watch: self.next_watch + self.unwatched(names).len(),
            ..self
        }
    }

    /// The actions that bring about [`Self::reconciled`]: first the clients,
    /// then the publication, then the watches.
    pub open spec fn reconcile_actions(self, config: RouteConfigResource) -> Seq<ActionView> {
        seq![
            ActionView::AddClusters(distinct(config.references())),
            ActionView::PublishRouteConfig(config),
        ] + watch_actions(self.unwatched(distinct(config.references())), self.next_watch)
    }

    /// The state once `config` is in force.
    pub open spec fn with_config(self, config: RouteConfigResource, now: u128) -> CascadeView {
        self.reconciled(distinct(config.references()), now)
    }

    /// The clusters whose teardown is due at `now`.
    pub open spec fn due(self, now: u128) -> Set<Seq<char>> {
        Set::new(|n: Seq<char>| self.pending.contains_key(n) && self.pending[n] <= now)
    }

    /// The state without anything of the clusters `gone`.
    pub open spec fn torn_down(self, gone: Set<Seq<char>>) -> CascadeView {
        CascadeView {
            cds: self.cds.remove_keys(gone),
            eds: self.eds.remove_keys(gone),
            eds_names: self.eds_names.remove_keys(gone),
            pending: self.pending.remove_keys(gone),
            ..self
        }
    }

    /// The actions that tear one cluster down.
    pub open spec fn teardown_one(self, n: Seq<char>) -> Seq<ActionView> {
        (if self.cds.contains_key(n) {
            seq![ActionView::DropClusterWatch(self.cds[n])]
        } else {
            Seq::empty()
        }) + (if self.eds.contains_key(n) {
            seq![ActionView::DropEndpointsWatch(self.eds[n])]
        } else {
            Seq::empty()
        }) + seq![ActionView::RemoveCluster(n), ActionView::RemoveEndpoints(n)]
    }

    /// The actions that tear `names` down, one after the other.
    pub open spec fn teardown(self, names: Seq<Seq<char>>) -> Seq<ActionView>
        decreases names.len(),
    {
        if names.len() == 0 {
            Seq::empty()
        } else {
            self.teardown(names.drop_last()) + self.teardown_one(names.last())
        }
    }

    /// The action that ends the watch of the route configuration.
    pub open spec fn drop_rds(self) -> Seq<ActionView> {
        match self.rds {
            Some((_, watch)) => seq![ActionView::DropRouteConfigWatch(watch)],
            None => Seq::empty(),
        }
    }

    /// The action that ends the watch of a cluster's endpoints.
    pub open spec fn drop_eds(self, n: Seq<char>) -> Seq<ActionView> {
        if self.eds.contains_key(n) {
            seq![ActionView::DropEndpointsWatch(self.eds[n])]
        } else {
            Seq::empty()
        }
    }
}

/// What a listener event leads to: inline routes end the watch of a route
/// configuration and come into force; a reference to a route configuration of
/// another name than the watched one is watched in its place; anything else
/// changes nothing.
pub open spec fn lds_step(
    pre: CascadeView,
    event: ResourceEvent<ListenerResource>,
    now: u128,
) -> (CascadeView, Seq<ActionView>) {
    match event.resource() {
        None => (pre, seq![ActionView::Acknowledge]),
        Some(listener) => match listener.route_source {
            RouteSource::Inline(config) => {
                let cleared = CascadeView { rds: None, ..pre };
                (
                    cleared.with_config(config, now),
                    pre.drop_rds() + cleared.reconcile_actions(config) + seq![
                        ActionView::Acknowledge,
                    ],
                )
            },
            RouteSource::Rds(name) => if pre.watches_config(name@) {
                (pre, seq![ActionView::Acknowledge])
            } else {
                let watch = pre.next_watch as u64;
                (
                    CascadeView {
                        rds: Some((name@, watch)),
                        next_watch: pre.next_watch + 1,
                        ..pre
                    },
                    seq![ActionView::WatchRouteConfig { name: name@, watch }] + pre.drop_rds()
                        + seq![ActionView::Acknowledge],
                )
            },
        },
    }
}

/// What a route configuration event leads to: a configuration comes into
/// force; an error changes nothing.
pub open spec fn rds_step(
    pre: CascadeView,
    event: ResourceEvent<RouteConfigResource>,
    now: u128,
) -> (CascadeView, Seq<ActionView>) {
    match event.resource() {
        None => (pre, seq![ActionView::Acknowledge]),
        Some(config) => (
            pre.with_config(config, now),
            pre.reconcile_actions(config) + seq![ActionView::Acknowledge],
        ),
    }
}

/// What a cluster event leads to: the cluster is cached, and its endpoints are
/// watched anew if they are published under another name than before; an
/// error changes nothing.
pub open spec fn cds_step(
    pre: CascadeView,
    cluster: Seq<char>,
    event: ResourceEvent<ClusterResource>,
) -> (CascadeView, Seq<ActionView>) {
    match event.resource() {
        None => (pre, seq![ActionView::Acknowledge]),
        Some(resource) => {
            let name = resource.eds_service_name@;
            let update = seq![ActionView::UpdateCluster { cluster, resource }];
            if pre.watches_endpoints(cluster, name) {
                (pre, update + seq![ActionView::Acknowledge])
            } else {
                let watch = pre.next_watch as u64;
                (
                    CascadeView {
                        eds: pre.eds.insert(cluster, watch),
                        eds_names: pre.eds_names.insert(cluster, name),
                        next_watch: pre.next_watch + 1,
                        ..pre
                    },
                    update + pre.drop_eds(cluster) + seq![
                        ActionView::WatchEndpoints { cluster, name, watch },
                        ActionView::Acknowledge,
                    ],
                )
            }
        },
    }
}

/// What an endpoints event leads to: the endpoints are cached; an error
/// changes nothing.
pub open spec fn eds_actions(
    cluster: Seq<char>,
    event: ResourceEvent<EndpointsResource>,
) -> Seq<ActionView> {
    match event.resource() {
        None => seq![ActionView::Acknowledge],
        Some(endpoints) => seq![
            ActionView::UpdateEndpoints { cluster, endpoints },
            ActionView::Acknowledge,
        ],
    }
}

/// What the removal timer leads to: every cluster whose teardown is due is torn
/// down, in some order, and then the clients of clusters that are no longer
/// watched are evicted. With nothing due nothing is done.
pub open spec fn removal_step(
    pre: CascadeView,
    now: u128,
    post: CascadeView,
    actions: Seq<ActionView>,
) -> bool {
    &&& post == pre.torn_down(pre.due(now))
    &&& if pre.due(now) == Set::<Seq<char>>::empty() {
        actions == Seq::<ActionView>::empty()
    } else {
        exists|order: Seq<Seq<char>>| #[trigger]
            lists(order, pre.due(now)) && actions == pre.teardown(order) + seq![
                ActionView::EvictClusters(post.cds.dom()),
            ]
    }
}

/// There are watch numbers left for the clusters of `config` that are not
/// watched, and the time of a teardown that starts now can be told.
pub open spec fn config_fits(pre: CascadeView, config: RouteConfigResource, now: u128) -> bool {
    &&& pre.next_watch + pre.unwatched(distinct(config.references())).len() <= u64::MAX
    &&& now + CLUSTER_REMOVAL_GRACE <= u128::MAX
}

/// A configuration coming into force keeps the state well-formed; the clusters
/// that are watched afterwards are those that were and those that it names,
/// and a watch that was there stays.
pub proof fn lemma_reconciled(pre: CascadeView, names: Seq<Seq<char>>, now: u128)
    requires
        pre.wf(),
        names.no_duplicates(),
        pre.next_watch + pre.unwatched(names).len() <= u64::MAX,
    ensures
        pre.reconciled(names, now).wf(),
        pre.reconciled(names, now).cds.dom() == pre.cds.dom().union(names.to_set()),
        forall|n: Seq<char>| #[trigger]
            pre.cds.contains_key(n) ==> pre.reconciled(names, now).cds[n] == pre.cds[n],
        forall|n: Seq<char>|
            names.contains(n) && !pre.cds.contains_key(n) ==> pre.next_watch <= #[trigger]
            pre.reconciled(names, now).cds[n] < pre.reconciled(names, now).next_watch,
        pre.next_watch <= pre.reconciled(names, now).next_watch,
{
    let fresh = pre.unwatched(names);
    let post = pre.reconciled(names, now);
    lemma_absent(pre.cds, names);
    lemma_number_all(pre.cds, fresh, pre.next_watch);
    assert forall|n: Seq<char>| fresh.to_set().contains(n) == (names.contains(n)
        && !pre.cds.contains_key(n)) by {
        assert(fresh.contains(n) == (names.contains(n) && !pre.cds.contains_key(n)));
    }
    assert(post.cds.dom() =~= pre.cds.dom().union(names.to_set()));
    assert forall|n: Seq<char>| #[trigger] pre.cds.contains_key(n) implies post.cds[n]
        == pre.cds[n] by {
        assert(!fresh.contains(n));
    }
    assert forall|n: Seq<char>|
        names.contains(n) && !pre.cds.contains_key(n) implies pre.next_watch <= #[trigger]
    post.cds[n] < post.next_watch by {
        assert(fresh.contains(n));
        let i = fresh.index_of(n);
        assert(fresh[i] == n);
    }
    assert forall|n: Seq<char>| #[trigger] post.cds.contains_key(n) implies post.cds[n]
        < post.next_watch by {
        assert(post.cds.dom().contains(n));
        if pre.cds.contains_key(n) {
        } else {
            assert(names.contains(n));
        }
    }
}

/// One source of work for the cascade.
#[derive(Clone, Copy, Debug, PartialEq, Eq, Structural)]
pub enum Arm {
    /// The listener's watch.
    Lds,
    /// The route configuration's watch.
    Rds,
    /// The time of the next teardown.
    Removal(u128),
    /// The clusters' watches.
    Cds,
    /// The endpoints' watches.
    Eds,
}

/// What happened to the cascade. An event of `None` means that the watch
/// closed.
pub enum CascadeEvent {
    Lds(Option<ResourceEvent<ListenerResource>>),
    Rds(Option<ResourceEvent<RouteConfigResource>>),
    /// The time of a teardown has come.
    Removal,
    Cds(String, Option<ResourceEvent<ClusterResource>>),
    Eds(String, Option<ResourceEvent<EndpointsResource>>),
}

/// `next` is the earliest time of a teardown.
pub open spec fn earliest(pending: Map<Seq<char>, u128>, next: Option<u128>) -> bool {
    match next {
        None => pending.dom() == Set::<Seq<char>>::empty(),
        Some(deadline) => {
            &&& exists|n: Seq<char>| #[trigger] pending.contains_key(n) && pending[n] == deadline
            &&& forall|n: Seq<char>| #[trigger] pending.contains_key(n) ==> deadline <= pending[n]
        },
    }
}

/// The sources of work that are open in `view`, the higher levels first.
pub open spec fn open_arms(view: CascadeView, next: Option<u128>) -> Seq<Arm> {
    seq![Arm::Lds] + (if view.rds is Some {
        seq![Arm::Rds]
    } else {
        Seq::empty()
    }) + (match next {
        Some(deadline) => seq![Arm::Removal(deadline)],
        None => Seq::empty(),
    }) + (if view.cds.dom() != Set::<Seq<char>>::empty() {
        seq![Arm::Cds]
    } else {
        Seq::empty()
    }) + (if view.eds.dom() != Set::<Seq<char>>::empty() {
        seq![Arm::Eds]
    } else {
        Seq::empty()
    })
}

/// There are watch numbers left for what `event` starts, and the time of a
/// teardown that starts now can be told.
pub open spec fn event_fits(pre: CascadeView, event: CascadeEvent, now: u128) -> bool {
    match event {
        CascadeEvent::Lds(Some(e)) => lds_fits(pre, e, now),
        CascadeEvent::Rds(Some(e)) => rds_fits(pre, e, now),
        CascadeEvent::Cds(cluster, Some(e)) => cds_fits(pre, cluster@, e),
        _ => true,
    }
}

/// As [`event_fits`], of a listener event.
pub open spec fn lds_fits(
    pre: CascadeView,
    event: ResourceEvent<ListenerResource>,
    now: u128,
) -> bool {
    match event.resource() {
        Some(listener) => match listener.route_source {
            RouteSource::Inline(config) => config_fits(pre, config, now),
            RouteSource::Rds(name) => pre.watches_config(name@) || pre.next_watch < u64::MAX,
        },
        None => true,
    }
}

/// As [`event_fits`], of a route configuration event.
pub open spec fn rds_fits(
    pre: CascadeView,
    event: ResourceEvent<RouteConfigResource>,
    now: u128,
) -> bool {
    match event.resource() {
        Some(config) => config_fits(pre, config, now),
        None => true,
    }
}

/// As [`event_fits`], of a cluster event.
pub open spec fn cds_fits(
    pre: CascadeView,
    cluster: Seq<char>,
    event: ResourceEvent<ClusterResource>,
) -> bool {
    match event.resource() {
        Some(resource) => pre.watches_endpoints(cluster, resource.eds_service_name@)
            || pre.next_watch < u64::MAX,
        None => true,
    }
}

/// What an event leads to; `actions` is `None` once the cascade is over.
pub open spec fn stepped(
    pre: CascadeView,
    event: CascadeEvent,
    now: u128,
    post: CascadeView,
    actions: Option<Seq<ActionView>>,
) -> bool {
    match event {
        CascadeEvent::Lds(None) => post == pre && actions is None,
        CascadeEvent::Lds(Some(e)) => post == lds_step(pre, e, now).0 && actions == Some(
            lds_step(pre, e, now).1,
        ),
        CascadeEvent::Rds(None) => post == (CascadeView { rds: None, ..pre }) && actions == Some(
            pre.drop_rds(),
        ),
        CascadeEvent::Rds(Some(e)) => post == rds_step(pre, e, now).0 && actions == Some(
            rds_step(pre, e, now).1,
        ),
        CascadeEvent::Removal => actions is Some && removal_step(pre, now, post, actions->0),
        CascadeEvent::Cds(cluster, None) => post == (CascadeView {
            cds: pre.cds.remove(cluster@),
            ..pre
        }) && actions == Some(Seq::<ActionView>::empty()),
        CascadeEvent::Cds(cluster, Some(e)) => post == cds_step(pre, cluster@, e).0
            && actions == Some(cds_step(pre, cluster@, e).1),
        CascadeEvent::Eds(cluster, None) => post == (CascadeView {
            eds: pre.eds.remove(cluster@),
            ..pre
        }) && actions == Some(Seq::<ActionView>::empty()),
        CascadeEvent::Eds(cluster, Some(e)) => post == pre && actions == Some(
            eds_actions(cluster@, e),
        ),
    }
}

/// The state of the cascade.
pub struct CascadeState {
    /// The watch of the route configuration; `None` if routes are inline.
    rds_watcher: Option<u64>,
    /// The name of the watched route configuration.
    rds_name: Option<String>,
    /// The watch of each cluster.
    cds_watchers: WatcherMap,
    /// The watch of each cluster's endpoints.
    eds_watchers: WatcherMap,
    /// The name under which each cluster's endpoints were last watched.
    eds_names: KeyMap<String, String>,
    /// The clusters that left the routes, with the time of their teardown.
    pending_removals: KeyMap<String, u128>,
    /// The next watch to be handed out.
    next_watch: u64,
}

impl View for CascadeState {
    type V = CascadeView;

    closed spec fn view(&self) -> CascadeView {
        CascadeView {
            rds: match (self.rds_name, self.rds_watcher) {
                (Some(name), Some(watch)) => Some((name@, watch)),
                _ => None,
            },
            cds: self.cds_watchers@,
            eds: self.eds_watchers@,
            eds_names: self.eds_names@.map_values(|name: String| name@),
            pending: self.pending_removals@,
            next_watch: self.next_watch as nat,
        }
    }
}

impl CascadeState {
    /// The collections are well-formed, and a route configuration has a name
    /// exactly if it has a watch.
    pub closed spec fn parts_wf(&self) -> bool {
        &&& self.rds_name is Some == self.rds_watcher is Some
        &&& self.cds_watchers.wf()
        &&& self.eds_watchers.wf()
        &&& self.eds_names.wf()
        &&& self.pending_removals.wf()
    }

    /// The state is well-formed.
    pub open spec fn wf(&self) -> bool {
        self.parts_wf() && self@.wf()
    }

    /// A cascade that watches nothing.
    pub fn new() -> (r: Self)
        ensures
            r.wf(),
            r@ == CascadeView::initial(),
    {
        let r = CascadeState {
            rds_watcher: None,
            rds_name: None,
            cds_watchers: WatcherMap::new(),
            eds_watchers: WatcherMap::new(),
            eds_names: KeyMap::new(),
            pending_removals: KeyMap::new(),
            next_watch: 0,
        };
        assert(r@.eds_names =~= Map::<Seq<char>, Seq<char>>::empty());
        r
    }

    /// What is to be done before the first event: the listener is watched.
    pub fn start(&self, listener_name: &str) -> (r: Vec<CascadeAction>)
        ensures
            views(r@) == seq![ActionView::WatchListener(listener_name@)],
    {
        let mut actions: Vec<CascadeAction> = Vec::new();
        actions.push(CascadeAction::WatchListener(String::from_str(listener_name)));
        assert(views(actions@) =~= seq![ActionView::WatchListener(listener_name@)]);
        actions
    }

    /// Starts the grace period of every cluster of `old` that is not in `new`
    /// and is not in its grace period yet.
    fn start_removals(
        &mut self,
        old_clusters: &KeySet<String>,
        new_clusters: &KeySet<String>,
        deadline: u128,
    )
        requires
            old(self).wf(),
        ensures
            final(self).wf(),
            final(self)@ == (CascadeView {
                pending: mark_removed(
                    old(self)@.pending,
                    old_clusters@,
                    new_clusters@,
                    deadline,
                ),
                ..old(self)@
            }),
    {
        let ghost before = self@;
        let n: usize = old_clusters.count();
        let mut i: usize = 0;
        proof {
            assert(self@.pending =~= mark_removed(
                before.pending,
                old_clusters.listed().take(0).to_set(),
                new_clusters@,
                deadline,
            ));
        }
        while i < n
            invariant
                i <= n,
                n == old_clusters.listed().len(),
                self.wf(),
                before == old(self)@,
                self@ == (CascadeView {
                    pending: mark_removed(
                        before.pending,
                        old_clusters.listed().take(i as int).to_set(),
                        new_clusters@,
                        deadline,
                    ),
                    ..before
                }),
            decreases n - i,
        {
            let name = old_clusters.at(i);
            let ghost q = old_clusters.listed().take(i + 1);
            let ghost mid = self@;
            proof {
                lemma_take_push(old_clusters.listed(), i as int);
            }
            if !new_clusters.contains(name) && !self.pending_removals.contains_key(name) {
                self.pending_removals.insert(name.clone(), deadline);
            }
            proof {
                assert(self@.pending =~= mark_removed(
                    before.pending,
                    q.to_set(),
                    new_clusters@,
                    deadline,
                ));
                assert(self@ == (CascadeView { pending: self@.pending, ..mid }));
            }
            i = i + 1;
        }
        assert(old_clusters.listed().take(i as int) =~= old_clusters.listed());
    }

    /// Hands out a watch for every cluster of `new` that is not in `old`, and
    /// appends the actions that register them.
    fn watch_added(
        &mut self,
        old_clusters: &KeySet<String>,
        new_clusters: &KeySet<String>,
        actions: &mut Vec<CascadeAction>,
    )
        requires
            old(self).wf(),
            old_clusters@ == old(self)@.cds.dom(),
            new_clusters.wf(),
            old(self)@.next_watch + old(self)@.unwatched(new_clusters.listed()).len() <= u64::MAX,
        ensures
            final(self).parts_wf(),
            final(self)@ == (CascadeView {
                cds: number_all(
                    old(self)@.cds,
                    old(self)@.unwatched(new_clusters.listed()),
                    old(self)@.next_watch,
                ),
                next_watch: old(self)@.next_watch + old(self)@.unwatched(
                    new_clusters.listed(),
                ).len(),
                ..old(self)@
            }),
            views(final(actions)@) == views(old(actions)@) + watch_actions(
                old(self)@.unwatched(new_clusters.listed()),
                old(self)@.next_watch,
            ),
    {
        let ghost before = self@;
        let ghost done = views(actions@);
        let ghost names = new_clusters.listed();
        let n: usize = new_clusters.count();
        let mut i: usize = 0;
        proof {
            lemma_absent_prefix(before.cds, names, 0);
            assert(before.unwatched(names.take(0)) =~= Seq::<Seq<char>>::empty());
            assert(done + watch_actions(before.unwatched(names.take(0)), before.next_watch)
                =~= done);
        }
        while i < n
            invariant
                i <= n,
                names == new_clusters.listed(),
                n == names.len(),
                before.next_watch + before.unwatched(names).len() <= u64::MAX,
                old_clusters@ == before.cds.dom(),
                self.parts_wf(),
                self@ == (CascadeView {
                    cds: number_all(
                        before.cds,
                        before.unwatched(names.take(i as int)),
                        before.next_watch,
                    ),
                    next_watch: before.next_watch + before.unwatched(names.take(i as int)).len(),
                    ..before
                }),
                views(actions@) == done + watch_actions(
                    before.unwatched(names.take(i as int)),
                    before.next_watch,
                ),
            decreases n - i,
        {
            let name = new_clusters.at(i);
            let ghost p = before.unwatched(names.take(i as int));
            let ghost q = before.unwatched(names.take(i + 1));
            proof {
                lemma_absent_prefix(before.cds, names, i as int);
                lemma_absent_prefix(before.cds, names, i + 1);
            }
            if !old_clusters.contains(name) {
                let watch: u64 = self.next_watch;
                let ghost listed = actions@;
                assert(q == p.push(name@));
                assert(q.drop_last() =~= p);
                actions.push(CascadeAction::WatchCluster { cluster: name.clone(), watch });
                let _none = self.cds_watchers.insert(name.clone(), watch);
                self.next_watch = watch + 1;
                proof {
                    assert(views(actions@) =~= views(listed).push(
                        ActionView::WatchCluster { cluster: name@, watch },
                    ));
                    assert(watch_actions(q, before.next_watch) =~= watch_actions(
                        p,
                        before.next_watch,
                    ).push(ActionView::WatchCluster { cluster: name@, watch }));
                    assert(views(actions@) =~= done + watch_actions(q, before.next_watch));
                }
            } else {
                assert(q == p);
            }
            i = i + 1;
        }
        assert(names.take(i as int) =~= names);
    }

    /// Brings a route configuration into force: clusters that re-enter the
    /// routes lose their pending removal, clusters that leave them start their
    /// grace period, and clusters that enter them are watched.
    ///
    /// The actions are ordered so that no request meets a missing client: the
    /// clients of the new clusters come first, the publication follows, and
    /// the watches, which may stall, come last.
    pub fn reconcile_and_publish(
        &mut self,
        route_config: RouteConfigResource,
        now: u128,
    ) -> (r: Vec<CascadeAction>)
        requires
            old(self).wf(),
            config_fits(old(self)@, route_config, now),
        ensures
            final(self).wf(),
            final(self)@ == old(self)@.with_config(route_config, now),
            views(r@) == old(self)@.reconcile_actions(route_config),
    {
        let ghost before = self@;
        let ghost names = distinct(route_config.references());
        let new_clusters = route_config.cluster_names();
        let old_clusters = self.cds_watchers.names();
        proof {
            lemma_distinct(route_config.references());
            lemma_reconciled(before, names, now);
        }
        self.pending_removals.remove_all(&new_clusters);
        let mut actions: Vec<CascadeAction> = Vec::new();
        actions.push(CascadeAction::AddClusters(new_clusters.duplicate()));
        actions.push(CascadeAction::PublishRouteConfig(route_config));
        proof {
            assert(views(actions@) =~= seq![
                ActionView::AddClusters(names),
                ActionView::PublishRouteConfig(route_config),
            ]);
            assert(names.to_set() == new_clusters@);
            assert(self@ == (CascadeView {
                pending: before.pending.remove_keys(names.to_set()),
                ..before
            }));
        }
        let deadline: u128 = now + CLUSTER_REMOVAL_GRACE;
        self.start_removals(&old_clusters, &new_clusters, deadline);
        let ghost mid = self@;
        proof {
            assert(mid.unwatched(names) == before.unwatched(names)) by {
                assert(mid.cds == before.cds);
            }
        }
        self.watch_added(&old_clusters, &new_clusters, &mut actions);
        proof {
            assert(self@ == before.with_config(route_config, now));
        }
        actions
    }

    /// The clusters whose teardown is due at `now`.
    fn due_removals(&self, now: u128) -> (r: KeySet<String>)
        requires
            self.wf(),
        ensures
            r.wf(),
            r@ == self@.due(now),
    {
        let mut due: KeySet<String> = KeySet::new();
        let ghost listed = self.pending_removals.listed();
        let n: usize = self.pending_removals.len();
        let mut i: usize = 0;
        while i < n
            invariant
                i <= n,
                self.wf(),
                listed == self.pending_removals.listed(),
                n == listed.len(),
                due.wf(),
                forall|x: Seq<char>| #[trigger]
                    due@.contains(x) == (listed.take(i as int).contains(x) && self@.pending[x]
                        <= now),
            decreases n - i,
        {
            let (name, deadline) = self.pending_removals.at(i);
            if *deadline <= now {
                let _added = due.insert(name.clone());
            }
            proof {
                lemma_take_push(listed, i as int);
                assert forall|x: Seq<char>| #[trigger] due@.contains(x) == (listed.take(
                    i + 1,
                ).contains(x) && self@.pending[x] <= now) by {
                    assert(listed.take(i + 1).contains(x) == (listed.take(i as int).contains(x)
                        || x == name@));
                }
            }
            i = i + 1;
        }
        proof {
            assert(listed.take(i as int) =~= listed);
            assert(self.pending_removals@.dom() == listed.to_set());
            assert forall|x: Seq<char>| #[trigger] due@.contains(x) == self@.due(now).contains(
                x,
            ) by {
                assert(listed.to_set().contains(x) == self@.pending.dom().contains(x));
            }
            assert(due@ =~= self@.due(now));
        }
        due
    }

    /// Drops everything that is kept for the cluster `name`, and appends the
    /// actions that tear it down.
    fn tear_down(&mut self, name: &String, actions: &mut Vec<CascadeAction>)
        requires
            old(self).wf(),
        ensures
            final(self).wf(),
            final(self)@ == old(self)@.torn_down(set![name@]),
            views(final(actions)@) == views(old(actions)@) + old(self)@.teardown_one(name@),
    {
        let ghost before = self@;
        let ghost done = views(actions@);
        let _deadline = self.pending_removals.remove(name);
        if let Some(watch) = self.cds_watchers.remove(name) {
            actions.push(CascadeAction::DropClusterWatch(watch));
        }
        let ghost part1 = if before.cds.contains_key(name@) {
            seq![ActionView::DropClusterWatch(before.cds[name@])]
        } else {
            Seq::<ActionView>::empty()
        };
        assert(views(actions@) =~= done + part1);
        if let Some(watch) = self.eds_watchers.remove(name) {
            actions.push(CascadeAction::DropEndpointsWatch(watch));
        }
        let ghost part2 = if before.eds.contains_key(name@) {
            seq![ActionView::DropEndpointsWatch(before.eds[name@])]
        } else {
            Seq::<ActionView>::empty()
        };
        assert(views(actions@) =~= done + part1 + part2);
        let _name = self.eds_names.remove(name);
        actions.push(CascadeAction::RemoveCluster(name.clone()));
        actions.push(CascadeAction::RemoveEndpoints(name.clone()));
        proof {
            assert(views(actions@) =~= done + before.teardown_one(name@));
            let after = before.torn_down(set![name@]);
            assert(self@.cds =~= after.cds);
            assert(self@.eds =~= after.eds);
            assert(self@.eds_names =~= after.eds_names);
            assert(self@.pending =~= after.pending);
        }
    }

    /// Finalizes every pending removal whose grace period is over at `now`:
    /// its watches and cached resources go, and with them the clients of all
    /// clusters that are no longer watched.
    pub fn process_due_removals(&mut self, now: u128) -> (r: Vec<CascadeAction>)
        requires
            old(self).wf(),
        ensures
            final(self).wf(),
            removal_step(old(self)@, now, final(self)@, views(r@)),
    {
        let ghost before = self@;
        let due = self.due_removals(now);
        let n: usize = due.count();
        let mut actions: Vec<CascadeAction> = Vec::new();
        assert(views(actions@) =~= Seq::<ActionView>::empty());
        if n == 0 {
            proof {
                assert(due@ =~= Set::<Seq<char>>::empty());
                lemma_torn_down_nothing(before);
            }
            return actions;
        }
        let ghost order = due.listed();
        proof {
            assert(order.contains(order[0]));
            assert(due@.contains(order[0]));
            assert(order.take(0).to_set() =~= Set::<Seq<char>>::empty());
            lemma_torn_down_nothing(before);
        }
        let mut i: usize = 0;
        while i < n
            invariant
                i <= n,
                n == order.len(),
                order == due.listed(),
                due.wf(),
                self.wf(),
                self@ == before.torn_down(order.take(i as int).to_set()),
                views(actions@) == before.teardown(order.take(i as int)),
            decreases n - i,
        {
            let name = due.at(i);
            let ghost p = order.take(i as int);
            let ghost q = order.take(i + 1);
            let ghost mid = self@;
            self.tear_down(name, &mut actions);
            proof {
                assert(q.drop_last() =~= p);
                assert(q.last() == name@);
                lemma_take_push(order, i as int);
                assert(mid.teardown_one(name@) == before.teardown_one(name@)) by {
                    assert(!p.to_set().contains(name@));
                }
                let after = before.torn_down(q.to_set());
                assert(self@.cds =~= after.cds);
                assert(self@.eds =~= after.eds);
                assert(self@.eds_names =~= after.eds_names);
                assert(self@.pending =~= after.pending);
            }
            i = i + 1;
        }
        let keep = self.cds_watchers.names();
        let ghost torn = views(actions@);
        actions.push(CascadeAction::EvictClusters(keep));
        proof {
            assert(order.take(i as int) =~= order);
            assert(views(actions@) =~= torn + seq![ActionView::EvictClusters(self@.cds.dom())]);
            assert(lists(order, before.due(now)));
        }
        actions
    }

    /// Appends the acknowledgement.
    fn acknowledge(actions: &mut Vec<CascadeAction>)
        ensures
            views(final(actions)@) == views(old(actions)@) + seq![ActionView::Acknowledge],
    {
        let ghost done = views(actions@);
        actions.push(CascadeAction::Acknowledge);
        assert(views(actions@) =~= done + seq![ActionView::Acknowledge]);
    }

    /// Forgets the watched route configuration, and appends the action that
    /// ends its watch.
    fn drop_route_config(&mut self, actions: &mut Vec<CascadeAction>)
        requires
            old(self).wf(),
        ensures
            final(self).wf(),
            final(self)@ == (CascadeView { rds: None, ..old(self)@ }),
            views(final(actions)@) == views(old(actions)@) + old(self)@.drop_rds(),
    {
        let ghost done = views(actions@);
        if let Some(watch) = self.rds_watcher {
            actions.push(CascadeAction::DropRouteConfigWatch(watch));
        }
        assert(views(actions@) =~= done + self@.drop_rds());
        self.rds_watcher = None;
        self.rds_name = None;
    }

    /// Handles an event of the listener's watch.
    pub fn handle_lds(
        &mut self,
        event: ResourceEvent<ListenerResource>,
        now: u128,
    ) -> (r: Vec<CascadeAction>)
        requires
            old(self).wf(),
            lds_fits(old(self)@, event, now),
        ensures
            final(self).wf(),
            final(self)@ == lds_step(old(self)@, event, now).0,
            views(r@) == lds_step(old(self)@, event, now).1,
    {
        let ghost before = self@;
        let mut actions: Vec<CascadeAction> = Vec::new();
        assert(views(actions@) =~= Seq::<ActionView>::empty());
        match event {
            ResourceEvent::ResourceChanged { result: Ok(listener) } => {
                match listener.route_source {
                    RouteSource::Inline(config) => {
                        self.drop_route_config(&mut actions);
                        let ghost dropped = views(actions@);
                        let ghost published = self@.reconcile_actions(config);
                        let mut reconcile = self.reconcile_and_publish(config, now);
                        proof {
                            assert(dropped =~= before.drop_rds());
                        }
                        let ghost head = actions@;
                        let ghost tail = reconcile@;
                        actions.append(&mut reconcile);
                        proof {
                            assert(actions@ =~= head + tail);
                            assert(views(actions@) =~= dropped + published);
                        }
                    },
                    RouteSource::Rds(name) => {
                        if !self.watches_config(&name) {
                            let watch: u64 = self.next_watch;
                            let ghost n = name@;
                            actions.push(
                                CascadeAction::WatchRouteConfig { name: name.clone(), watch },
                            );
                            assert(views(actions@) =~= seq![
                                ActionView::WatchRouteConfig { name: n, watch },
                            ]);
                            self.drop_route_config(&mut actions);
                            self.rds_watcher = Some(watch);
                            self.rds_name = Some(name);
                            self.next_watch = watch + 1;
                        }
                    },
                }
            },
            ResourceEvent::ResourceChanged { result: Err(_) } => {},
            ResourceEvent::AmbientError { error: _ } => {},
        }
        Self::acknowledge(&mut actions);
        proof {
            assert(views(actions@) =~= lds_step(before, event, now).1);
        }
        actions
    }

    /// Handles an event of the route configuration's watch.
    pub fn handle_rds(
        &mut self,
        event: ResourceEvent<RouteConfigResource>,
        now: u128,
    ) -> (r: Vec<CascadeAction>)
        requires
            old(self).wf(),
            rds_fits(old(self)@, event, now),
        ensures
            final(self).wf(),
            final(self)@ == rds_step(old(self)@, event, now).0,
            views(r@) == rds_step(old(self)@, event, now).1,
    {
        let ghost before = self@;
        let mut actions: Vec<CascadeAction> = Vec::new();
        assert(views(actions@) =~= Seq::<ActionView>::empty());
        match event {
            ResourceEvent::ResourceChanged { result: Ok(config) } => {
                actions = self.reconcile_and_publish(config, now);
            },
            ResourceEvent::ResourceChanged { result: Err(_) } => {},
            ResourceEvent::AmbientError { error: _ } => {},
        }
        Self::acknowledge(&mut actions);
        proof {
            assert(views(actions@) =~= rds_step(before, event, now).1);
        }
        actions
    }

    /// Handles an event of a cluster's watch.
    pub fn handle_cds(
        &mut self,
        cluster_name: &String,
        event: ResourceEvent<ClusterResource>,
    ) -> (r: Vec<CascadeAction>)
        requires
            old(self).wf(),
            cds_fits(old(self)@, cluster_name@, event),
        ensures
            final(self).wf(),
            final(self)@ == cds_step(old(self)@, cluster_name@, event).0,
            views(r@) == cds_step(old(self)@, cluster_name@, event).1,
    {
        let ghost before = self@;
        let mut actions: Vec<CascadeAction> = Vec::new();
        match event {
            ResourceEvent::ResourceChanged { result: Ok(resource) } => {
                let name = resource.eds_service_name.clone();
                let ghost update = ActionView::UpdateCluster { cluster: cluster_name@, resource };
                actions.push(
                    CascadeAction::UpdateCluster { cluster: cluster_name.clone(), resource },
                );
                assert(views(actions@) =~= seq![update]);
                if !self.watches_endpoints(cluster_name, &name) {
                    if let Some(watch) = self.eds_watchers.remove(cluster_name) {
                        actions.push(CascadeAction::DropEndpointsWatch(watch));
                    }
                    assert(views(actions@) =~= seq![update] + before.drop_eds(cluster_name@));
                    let watch: u64 = self.next_watch;
                    let ghost listed = views(actions@);
                    actions.push(
                        CascadeAction::WatchEndpoints {
                            cluster: cluster_name.clone(),
                            name: name.clone(),
                            watch,
                        },
                    );
                    assert(views(actions@) =~= listed + seq![
                        ActionView::WatchEndpoints { cluster: cluster_name@, name: name@, watch },
                    ]);
                    let _none = self.eds_watchers.insert(cluster_name.clone(), watch);
                    let ghost n = name@;
                    self.eds_names.insert(cluster_name.clone(), name);
                    self.next_watch = watch + 1;
                    proof {
                        assert(self@.eds =~= before.eds.insert(cluster_name@, watch));
                        assert(self@.eds_names =~= before.eds_names.insert(cluster_name@, n));
                    }
                }
            },
            ResourceEvent::ResourceChanged { result: Err(_) } => {},
            ResourceEvent::AmbientError { error: _ } => {},
        }
        Self::acknowledge(&mut actions);
        proof {
            assert(views(actions@) =~= cds_step(before, cluster_name@, event).1);
        }
        actions
    }

    /// Handles an event of the watch of a cluster's endpoints.
    pub fn handle_eds(
        &self,
        cluster_name: &String,
        event: ResourceEvent<EndpointsResource>,
    ) -> (r: Vec<CascadeAction>)
        ensures
            views(r@) == eds_actions(cluster_name@, event),
    {
        let mut actions: Vec<CascadeAction> = Vec::new();
        match event {
            ResourceEvent::ResourceChanged { result: Ok(endpoints) } => {
                actions.push(
                    CascadeAction::UpdateEndpoints { cluster: cluster_name.clone(), endpoints },
                );
            },
            ResourceEvent::ResourceChanged { result: Err(_) } => {},
            ResourceEvent::AmbientError { error: _ } => {},
        }
        Self::acknowledge(&mut actions);
        proof {
            assert(views(actions@) =~= eds_actions(cluster_name@, event));
        }
        actions
    }

    /// The time of the next teardown.
    pub fn next_removal(&self) -> (r: Option<u128>)
        requires
            self.wf(),
        ensures
            earliest(self@.pending, r),
    {
        let mut next: Option<u128> = None;
        let ghost listed = self.pending_removals.listed();
        let n: usize = self.pending_removals.len();
        let mut i: usize = 0;
        while i < n
            invariant
                i <= n,
                self.wf(),
                listed == self.pending_removals.listed(),
                n == listed.len(),
                match next {
                    None => i == 0,
                    Some(d) => {
                        &&& exists|x: Seq<char>| #[trigger]
                            self@.pending.contains_key(x) && self@.pending[x] == d
                        &&& forall|j: int| 0 <= j < i ==> d <= self@.pending[#[trigger] listed[j]]
                    },
                },
            decreases n - i,
        {
            let (name, deadline) = self.pending_removals.at(i);
            assert(self@.pending.contains_key(name@));
            next = match next {
                Some(d) => if d <= *deadline {
                    Some(d)
                } else {
                    Some(*deadline)
                },
                None => Some(*deadline),
            };
            i = i + 1;
        }
        proof {
            assert(self.pending_removals@.dom() == listed.to_set());
            if next is None {
                assert(self@.pending.dom() =~= Set::<Seq<char>>::empty());
            } else {
                assert forall|x: Seq<char>| #[trigger] self@.pending.contains_key(x) implies next->0
                    <= self@.pending[x] by {
                    assert(listed.to_set().contains(x));
                    let j = listed.index_of(x);
                    assert(listed[j] == x);
                }
            }
        }
        next
    }

    /// The sources of work to look at, in this order: higher levels come
    /// before lower ones, so that no work is done for clusters that are about
    /// to be removed, and a configuration that restores a cluster comes before
    /// its teardown.
    pub fn poll_order(&self) -> (r: Vec<Arm>)
        requires
            self.wf(),
        ensures
            exists|next: Option<u128>| #[trigger]
                earliest(self@.pending, next) && r@ == open_arms(self@, next),
    {
        let mut r: Vec<Arm> = Vec::new();
        r.push(Arm::Lds);
        if self.rds_watcher.is_some() {
            r.push(Arm::Rds);
        }
        let next = self.next_removal();
        if let Some(deadline) = next {
            r.push(Arm::Removal(deadline));
        }
        if !self.cds_watchers.is_empty() {
            r.push(Arm::Cds);
        }
        if !self.eds_watchers.is_empty() {
            r.push(Arm::Eds);
        }
        assert(r@ =~= open_arms(self@, next));
        r
    }

    /// Whether this is the name of the watched route configuration.
    fn watches_config(&self, name: &String) -> (r: bool)
        requires
            self.wf(),
        ensures
            r == self@.watches_config(name@),
    {
        match &self.rds_name {
            Some(watched) => watched.eq(name),
            None => false,
        }
    }

    /// Whether the endpoints of a cluster were last watched under this name.
    fn watches_endpoints(&self, cluster_name: &String, name: &String) -> (r: bool)
        requires
            self.wf(),
        ensures
            r == self@.watches_endpoints(cluster_name@, name@),
    {
        match self.eds_names.get(cluster_name) {
            Some(watched) => watched.eq(name),
            None => false,
        }
    }

    /// Whether a configuration fits in at `now`: there are watch numbers left
    /// for its clusters that are not watched, and the time of a teardown that
    /// starts now can be told.
    fn fits_config(&self, config: &RouteConfigResource, now: u128) -> (r: bool)
        requires
            self.wf(),
        ensures
            r == config_fits(self@, *config, now),
    {
        let clusters = config.cluster_names();
        let ghost names = clusters.listed();
        let mut unwatched: usize = 0;
        let n: usize = clusters.count();
        let mut i: usize = 0;
        proof {
            lemma_absent_prefix(self@.cds, names, 0);
        }
        while i < n
            invariant
                i <= n,
                self.wf(),
                names == clusters.listed(),
                n == names.len(),
                unwatched == self@.unwatched(names.take(i as int)).len(),
                unwatched <= i,
            decreases n - i,
        {
            proof {
                lemma_absent_prefix(self@.cds, names, i as int);
            }
            if !self.cds_watchers.contains_key(clusters.at(i).as_str()) {
                unwatched = unwatched + 1;
            }
            i = i + 1;
        }
        assert(names.take(i as int) =~= names);
        unwatched as u64 <= u64::MAX - self.next_watch && now <= u128::MAX - CLUSTER_REMOVAL_GRACE
    }

    /// Whether an event can be handled at `now`: there are watch numbers left
    /// for what it starts, and the time of a teardown that starts now can be
    /// told.
    pub fn fits(&self, event: &CascadeEvent, now: u128) -> (r: bool)
        requires
            self.wf(),
        ensures
            r == event_fits(self@, *event, now),
    {
        match event {
            CascadeEvent::Lds(Some(ResourceEvent::ResourceChanged { result: Ok(listener) })) => {
                match &listener.route_source {
                    RouteSource::Inline(config) => self.fits_config(config, now),
                    RouteSource::Rds(name) => self.watches_config(name) || self.next_watch
                        < u64::MAX,
                }
            },
            CascadeEvent::Rds(Some(ResourceEvent::ResourceChanged { result: Ok(config) })) => {
                self.fits_config(config, now)
            },
            CascadeEvent::Cds(
                cluster,
                Some(ResourceEvent::ResourceChanged { result: Ok(resource) }),
            ) => {
                self.watches_endpoints(cluster, &resource.eds_service_name) || self.next_watch
                    < u64::MAX
            },
            _ => true,
        }
    }

    /// Handles one event. `None` means that the cascade is over: the
    /// listener's watch closed.
    pub fn step(&mut self, event: CascadeEvent, now: u128) -> (r: Option<Vec<CascadeAction>>)
        requires
            old(self).wf(),
            event_fits(old(self)@, event, now),
        ensures
            final(self).wf(),
            stepped(
                old(self)@,
                event,
                now,
                final(self)@,
                match r {
                    Some(actions) => Some(views(actions@)),
                    None => None,
                },
            ),
    {
        let ghost before = self@;
        match event {
            CascadeEvent::Lds(None) => None,
            CascadeEvent::Lds(Some(e)) => Some(self.handle_lds(e, now)),
            CascadeEvent::Rds(None) => {
                let mut actions: Vec<CascadeAction> = Vec::new();
                self.drop_route_config(&mut actions);
                assert(views(actions@) =~= before.drop_rds());
                Some(actions)
            },
            CascadeEvent::Rds(Some(e)) => Some(self.handle_rds(e, now)),
            CascadeEvent::Removal => Some(self.process_due_removals(now)),
            CascadeEvent::Cds(cluster, Some(e)) => Some(self.handle_cds(&cluster, e)),
            CascadeEvent::Cds(cluster, None) => {
                let _watch = self.cds_watchers.remove(&cluster);
                let actions: Vec<CascadeAction> = Vec::new();
                proof {
                    assert(self@ == (CascadeView { cds: before.cds.remove(cluster@), ..before }));
                    assert(self@.wf()) by {
                        assert forall|n: Seq<char>| #[trigger]
                            self@.cds.contains_key(n) implies before.cds.contains_key(n)
                            && self@.cds[n] == before.cds[n] by {}
                    }
                }
                assert(views(actions@) =~= Seq::<ActionView>::empty());
                Some(actions)
            },
            CascadeEvent::Eds(cluster, Some(e)) => Some(self.handle_eds(&cluster, e)),
            CascadeEvent::Eds(cluster, None) => {
                let _watch = self.eds_watchers.remove(&cluster);
                let actions: Vec<CascadeAction> = Vec::new();
                proof {
                    assert(self@ == (CascadeView { eds: before.eds.remove(cluster@), ..before }));
                    assert(self@.wf()) by {
                        assert forall|n: Seq<char>| #[trigger]
                            self@.eds.contains_key(n) implies before.eds.contains_key(n)
                            && self@.eds[n] == before.eds[n] by {}
                    }
                }
                assert(views(actions@) =~= Seq::<ActionView>::empty());
                Some(actions)
            },
        }
    }

    /// The watch of the route configuration.
    pub fn rds_watcher(&self) -> (r: Option<u64>)
        requires
            self.wf(),
        ensures
            r == (match self@.rds {
                Some((_, watch)) => Some(watch),
                None => None,
            }),
    {
        self.rds_watcher
    }

    /// The name of the watched route configuration.
    pub fn rds_name(&self) -> (r: Option<&str>)
        requires
            self.wf(),
        ensures
            match r {
                Some(name) => self@.rds matches Some((watched, _)) && watched == name@,
                None => self@.rds is None,
            },
    {
        match &self.rds_name {
            Some(name) => Some(name.as_str()),
            None => None,
        }
    }

    /// The watches of the clusters.
    pub fn cds_watchers(&self) -> (r: &WatcherMap)
        requires
            self.wf(),
        ensures
            r.wf(),
            r@ == self@.cds,
    {
        &self.cds_watchers
    }

    /// The watches of the clusters' endpoints.
    pub fn eds_watchers(&self) -> (r: &WatcherMap)
        requires
            self.wf(),
        ensures
            r.wf(),
            r@ == self@.eds,
    {
        &self.eds_watchers
    }

    /// The clusters that left the routes, with the time of their teardown.
    pub fn pending_removals(&self) -> (r: &KeyMap<String, u128>)
        requires
            self.wf(),
        ensures
            r.wf(),
            r@ == self@.pending,
    {
        &self.pending_removals
    }
}

/// Tearing no cluster down changes nothing.
pub proof fn lemma_torn_down_nothing(view: CascadeView)
    ensures
        view.torn_down(Set::<Seq<char>>::empty()) == view,
{
    let none = Set::<Seq<char>>::empty();
    assert(view.cds.remove_keys(none) =~= view.cds);
    assert(view.eds.remove_keys(none) =~= view.eds);
    assert(view.eds_names.remove_keys(none) =~= view.eds_names);
    assert(view.pending.remove_keys(none) =~= view.pending);
}

} // verus!
