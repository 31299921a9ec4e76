use tonic_xds::{
    Arm, CascadeAction, CascadeEvent, CascadeState, ClusterClientRegistry, ClusterResource,
    ClusterWeight, EndpointsResource, KeySet, ListenerResource, RegistryClusterSync, ResourceError,
    ResourceEvent, RouteConfig, RouteConfigAction, RouteConfigResource, RouteDecision, RouteSource,
    VirtualHostConfig, WatcherMap, XdsLbService, CLUSTER_REMOVAL_GRACE,
};

const MILLISECOND: u128 = 1_000_000;

fn make_route_config(name: &str, clusters: &[&str]) -> RouteConfigResource {
    RouteConfigResource {
        name: name.into(),
        virtual_hosts: vec![VirtualHostConfig {
            name: "vh".into(),
            domains: vec!["*".into()],
            routes: clusters
                .iter()
                .map(|c| RouteConfig { action: RouteConfigAction::Cluster((*c).into()) })
                .collect(),
        }],
        handle: 0,
    }
}

fn make_listener_inline(clusters: &[&str]) -> ListenerResource {
    ListenerResource {
        name: "listener".into(),
        route_source: RouteSource::Inline(make_route_config("inline-rc", clusters)),
    }
}

fn make_listener_rds(rds_name: &str) -> ListenerResource {
    ListenerResource {
        name: "listener".into(),
        route_source: RouteSource::Rds(rds_name.into()),
    }
}

fn make_cluster(name: &str, eds_service_name: &str) -> ClusterResource {
    ClusterResource { name: name.into(), eds_service_name: eds_service_name.into(), handle: 0 }
}

fn ok_event<T>(resource: T) -> ResourceEvent<T> {
    ResourceEvent::ResourceChanged { result: Ok(resource) }
}

fn err_event<T>() -> ResourceEvent<T> {
    ResourceEvent::ResourceChanged { result: Err(ResourceError::ResourceDoesNotExist) }
}

fn ambient_event<T>() -> ResourceEvent<T> {
    ResourceEvent::AmbientError { error: ResourceError::ResourceDoesNotExist }
}

/// Lets the removal grace pass and finalizes due removals, as the timer would.
fn expire_removals(state: &mut CascadeState, now: &mut u128) -> Vec<CascadeAction> {
    *now += CLUSTER_REMOVAL_GRACE + MILLISECOND;
    state.process_due_removals(*now)
}

fn members(set: &KeySet<String>) -> Vec<String> {
    let mut names: Vec<String> = (0..set.count()).map(|i| set.at(i).clone()).collect();
    names.sort();
    names
}

fn watched(watchers: &WatcherMap) -> Vec<String> {
    members(&watchers.names())
}

fn adds(actions: &[CascadeAction]) -> Vec<Vec<String>> {
    actions
        .iter()
        .filter_map(|a| match a {
            CascadeAction::AddClusters(active) => Some(members(active)),
            _ => None,
        })
        .collect()
}

fn evicts(actions: &[CascadeAction]) -> Vec<Vec<String>> {
    actions
        .iter()
        .filter_map(|a| match a {
            CascadeAction::EvictClusters(keep) => Some(members(keep)),
            _ => None,
        })
        .collect()
}

fn published(actions: &[CascadeAction]) -> Option<&RouteConfigResource> {
    actions.iter().find_map(|a| match a {
        CascadeAction::PublishRouteConfig(config) => Some(config),
        _ => None,
    })
}

/// One word per action, for assertions on their order.
fn outline(actions: &[CascadeAction]) -> String {
    actions
        .iter()
        .map(|a| match a {
            CascadeAction::AddClusters(_) => "add ".to_string(),
            CascadeAction::EvictClusters(_) => "evict ".to_string(),
            CascadeAction::PublishRouteConfig(_) => "publish ".to_string(),
            CascadeAction::UpdateCluster { cluster, .. } => format!("cluster:{} ", cluster),
            CascadeAction::UpdateEndpoints { cluster, .. } => format!("endpoints:{} ", cluster),
            CascadeAction::RemoveCluster(c) => format!("-cluster:{} ", c),
            CascadeAction::RemoveEndpoints(c) => format!("-endpoints:{} ", c),
            CascadeAction::WatchListener(name) => format!("lds:{} ", name),
            CascadeAction::WatchRouteConfig { name, watch } => format!("rds:{}#{} ", name, watch),
            CascadeAction::WatchCluster { cluster, watch } => format!("cds:{}#{} ", cluster, watch),
            CascadeAction::WatchEndpoints { cluster, name, watch } => {
                format!("eds:{}/{}#{} ", cluster, name, watch)
            }
            CascadeAction::DropRouteConfigWatch(w) => format!("-rds#{} ", w),
            CascadeAction::DropClusterWatch(w) => format!("-cds#{} ", w),
            CascadeAction::DropEndpointsWatch(w) => format!("-eds#{} ", w),
            CascadeAction::Acknowledge => "ack".to_string(),
        })
        .collect()
}

#[test]
fn reconcile_adds_new_clusters() {
    let mut state = CascadeState::new();
    state.reconcile_and_publish(make_route_config("rc", &["a", "b"]), 0);

    assert!(state.cds_watchers().contains_key("a"));
    assert!(state.cds_watchers().contains_key("b"));
    assert_eq!(state.cds_watchers().names().len(), 2);
}

/// A removed cluster keeps its watchers through the grace period and is only
/// torn down once the grace elapses.
#[test]
fn reconcile_removes_old_clusters_after_grace() {
    let mut now = 0;
    let mut state = CascadeState::new();
    state.reconcile_and_publish(make_route_config("rc", &["a", "b"]), now);
    state.reconcile_and_publish(make_route_config("rc", &["b", "c"]), now);

    // Within the grace, "a" is pending removal but still watched.
    assert!(state.cds_watchers().contains_key("a"));
    assert!(state.pending_removals().contains_key(&"a".to_string()));
    assert_eq!(state.cds_watchers().names().len(), 3);

    expire_removals(&mut state, &mut now);

    assert!(!state.cds_watchers().contains_key("a"));
    assert!(state.cds_watchers().contains_key("b"));
    assert!(state.cds_watchers().contains_key("c"));
    assert_eq!(state.cds_watchers().names().len(), 2);
    assert_eq!(state.pending_removals().len(), 0);
}

/// A cluster that leaves and re-enters the config within the grace keeps its
/// watchers: the pending removal is canceled and nothing is torn down.
#[test]
fn readded_cluster_cancels_pending_removal() {
    let mut now = 0;
    let mut state = CascadeState::new();
    state.reconcile_and_publish(make_route_config("rc", &["a"]), now);
    state.reconcile_and_publish(make_route_config("rc", &[]), now);
    assert!(state.pending_removals().contains_key(&"a".to_string()));

    state.reconcile_and_publish(make_route_config("rc", &["a"]), now);
    assert_eq!(state.pending_removals().len(), 0);

    assert!(expire_removals(&mut state, &mut now).is_empty());
    assert!(state.cds_watchers().contains_key("a"));
}

/// The full authoritative set is added on every reconcile (before publication),
/// while eviction comes only when a removal's grace elapses, with the set of
/// clusters to keep.
#[test]
fn reconcile_adds_eagerly_and_evicts_after_grace() {
    let mut now = 0;
    let mut state = CascadeState::new();
    let mut done: Vec<CascadeAction> = Vec::new();
    done.append(&mut state.reconcile_and_publish(make_route_config("rc", &["a", "b"]), now));
    done.append(&mut state.reconcile_and_publish(make_route_config("rc", &["b"]), now));
    // Fires even on a no-change config.
    done.append(&mut state.reconcile_and_publish(make_route_config("rc", &["b"]), now));

    assert_eq!(
        adds(&done),
        vec![
            vec!["a".to_string(), "b".to_string()],
            vec!["b".to_string()],
            vec!["b".to_string()],
        ]
    );
    // "a" is inside its grace period: no eviction yet.
    assert!(evicts(&done).is_empty());

    let done = expire_removals(&mut state, &mut now);
    assert_eq!(evicts(&done), vec![vec!["b".to_string()]]);
}

#[test]
fn reconcile_to_empty_removes_all_after_grace() {
    let mut now = 0;
    let mut state = CascadeState::new();
    state.reconcile_and_publish(make_route_config("rc", &["a"]), now);
    assert_eq!(state.cds_watchers().names().len(), 1);

    state.reconcile_and_publish(make_route_config("rc", &[]), now);
    assert_eq!(state.cds_watchers().names().len(), 1);

    expire_removals(&mut state, &mut now);
    assert_eq!(state.cds_watchers().names().len(), 0);
}

#[test]
fn handle_rds_ok_updates_cache_and_reconciles() {
    let mut state = CascadeState::new();
    let rc = make_route_config("rc-1", &["cluster-a", "cluster-b"]);
    let actions = state.handle_rds(ok_event(rc), 0);

    let config = published(&actions).unwrap();
    assert_eq!(config.name, "rc-1");
    assert!(state.cds_watchers().contains_key("cluster-a"));
    assert!(state.cds_watchers().contains_key("cluster-b"));
}

#[test]
fn handle_rds_err_preserves_state() {
    let mut state = CascadeState::new();
    state.handle_rds(ok_event(make_route_config("rc", &["c1"])), 0);
    assert_eq!(state.cds_watchers().names().len(), 1);

    state.handle_rds(err_event(), 0);
    assert_eq!(state.cds_watchers().names().len(), 1);
}

#[test]
fn handle_rds_ambient_error_preserves_state() {
    let mut state = CascadeState::new();
    state.handle_rds(ok_event(make_route_config("rc", &["c1"])), 0);
    assert_eq!(state.cds_watchers().names().len(), 1);

    state.handle_rds(ambient_event(), 0);
    assert_eq!(state.cds_watchers().names().len(), 1);
}

#[test]
fn handle_lds_inline_writes_route_config() {
    let mut state = CascadeState::new();
    let actions = state.handle_lds(ok_event(make_listener_inline(&["c1"])), 0);

    let config = published(&actions).unwrap();
    assert_eq!(config.name, "inline-rc");
    assert!(state.rds_watcher().is_none());
    assert!(state.rds_name().is_none());
    assert!(state.cds_watchers().contains_key("c1"));
}

#[test]
fn handle_lds_inline_clears_existing_rds() {
    let mut state = CascadeState::new();
    state.handle_lds(ok_event(make_listener_rds("rc-1")), 0);
    assert!(state.rds_watcher().is_some());
    assert_eq!(state.rds_name(), Some("rc-1"));

    state.handle_lds(ok_event(make_listener_inline(&[])), 0);
    assert!(state.rds_watcher().is_none());
    assert!(state.rds_name().is_none());
}

#[test]
fn handle_lds_rds_sets_watcher_and_name() {
    let mut state = CascadeState::new();
    state.handle_lds(ok_event(make_listener_rds("my-route")), 0);

    assert!(state.rds_watcher().is_some());
    assert_eq!(state.rds_name(), Some("my-route"));
}

#[test]
fn handle_lds_rds_same_name_reuses_watcher() {
    let mut state = CascadeState::new();
    state.handle_lds(ok_event(make_listener_rds("rc")), 0);
    assert!(state.rds_watcher().is_some());
    let first = state.rds_watcher();

    // Same name: the watcher is not replaced.
    state.handle_lds(ok_event(make_listener_rds("rc")), 0);
    assert_eq!(state.rds_name(), Some("rc"));
    assert_eq!(state.rds_watcher(), first);
}

#[test]
fn handle_lds_rds_different_name_replaces_watcher() {
    let mut state = CascadeState::new();
    state.handle_lds(ok_event(make_listener_rds("rc-1")), 0);
    assert_eq!(state.rds_name(), Some("rc-1"));

    let actions = state.handle_lds(ok_event(make_listener_rds("rc-2")), 0);
    assert_eq!(state.rds_name(), Some("rc-2"));
    assert_eq!(outline(&actions), "rds:rc-2#1 -rds#0 ack");
}

#[test]
fn handle_lds_err_preserves_state() {
    let mut state = CascadeState::new();
    state.handle_lds(ok_event(make_listener_inline(&["c1"])), 0);
    assert!(state.cds_watchers().contains_key("c1"));

    state.handle_lds(ok_event(make_listener_rds("rc")), 0);
    assert!(state.rds_watcher().is_some());

    state.handle_lds(err_event(), 0);
    assert!(state.rds_watcher().is_some());
    assert_eq!(state.rds_name(), Some("rc"));
    assert!(state.cds_watchers().contains_key("c1"));
}

#[test]
fn handle_lds_ambient_error_preserves_state() {
    let mut state = CascadeState::new();
    state.handle_lds(ok_event(make_listener_rds("rc")), 0);
    assert!(state.rds_watcher().is_some());

    state.handle_lds(ambient_event(), 0);
    assert!(state.rds_watcher().is_some());
    assert_eq!(state.rds_name(), Some("rc"));
}

/// A route configuration that references far more clusters than a command
/// channel buffers is reconciled in one step, and acknowledged only after the
/// last watch.
#[test]
fn rds_referencing_many_clusters_reconciles_without_deadlock() {
    const CLUSTER_COUNT: usize = 100;
    let names: Vec<String> = (0..CLUSTER_COUNT).map(|i| format!("cluster-{}", i)).collect();
    let refs: Vec<&str> = names.iter().map(|n| n.as_str()).collect();

    let mut state = CascadeState::new();
    let actions = state.handle_rds(ok_event(make_route_config("rc-many", &refs)), 0);
    assert_eq!(state.cds_watchers().len(), CLUSTER_COUNT);
    assert_eq!(actions.len(), 2 + CLUSTER_COUNT + 1);
    assert!(matches!(actions[CLUSTER_COUNT + 2], CascadeAction::Acknowledge));
}

#[test]
fn clients_come_before_publication_before_watches() {
    let mut state = CascadeState::new();
    let actions = state.handle_rds(ok_event(make_route_config("rc", &["a", "b", "a"])), 0);
    assert_eq!(outline(&actions), "add publish cds:a#0 cds:b#1 ack");
    let actions = state.handle_rds(ok_event(make_route_config("rc", &["b", "c"])), 0);
    assert_eq!(outline(&actions), "add publish cds:c#2 ack");
}

#[test]
fn weighted_routes_name_every_destination() {
    let config = RouteConfigResource {
        name: "rc".into(),
        virtual_hosts: vec![VirtualHostConfig {
            name: "vh".into(),
            domains: vec!["*".into()],
            routes: vec![RouteConfig {
                action: RouteConfigAction::WeightedClusters(vec![
                    ClusterWeight { name: "stable".into(), weight: 80 },
                    ClusterWeight { name: "canary".into(), weight: 20 },
                ]),
            }],
        }],
        handle: 0,
    };
    assert_eq!(members(&config.cluster_names()), vec!["canary", "stable"]);
    let mut state = CascadeState::new();
    state.handle_rds(ok_event(config), 0);
    assert_eq!(watched(state.cds_watchers()), vec!["canary", "stable"]);
}

#[test]
fn inline_routes_end_the_route_config_watch_first() {
    let mut state = CascadeState::new();
    state.handle_lds(ok_event(make_listener_rds("rc")), 0);
    let actions = state.handle_lds(ok_event(make_listener_inline(&["c1"])), 0);
    assert_eq!(outline(&actions), "-rds#0 add publish cds:c1#1 ack");
}

#[test]
fn cluster_event_watches_endpoints_once_per_name() {
    let mut state = CascadeState::new();
    let c1 = "c1".to_string();
    state.handle_rds(ok_event(make_route_config("rc", &["c1"])), 0);
    let actions = state.handle_cds(&c1, ok_event(make_cluster("c1", "eds-1")));
    assert_eq!(outline(&actions), "cluster:c1 eds:c1/eds-1#1 ack");
    let actions = state.handle_cds(&c1, ok_event(make_cluster("c1", "eds-1")));
    assert_eq!(outline(&actions), "cluster:c1 ack");
    let actions = state.handle_cds(&c1, ok_event(make_cluster("c1", "eds-2")));
    assert_eq!(outline(&actions), "cluster:c1 -eds#1 eds:c1/eds-2#2 ack");
    assert_eq!(watched(state.eds_watchers()), vec!["c1"]);

    assert_eq!(outline(&state.handle_cds(&c1, err_event())), "ack");
    assert_eq!(outline(&state.handle_cds(&c1, ambient_event())), "ack");
    assert_eq!(watched(state.eds_watchers()), vec!["c1"]);
}

#[test]
fn endpoints_event_updates_the_cache() {
    let state = CascadeState::new();
    let c1 = "c1".to_string();
    let endpoints =
        EndpointsResource { cluster_name: "eds-1".into(), localities: vec![], handle: 0 };
    assert_eq!(outline(&state.handle_eds(&c1, ok_event(endpoints))), "endpoints:c1 ack");
    assert_eq!(outline(&state.handle_eds(&c1, err_event())), "ack");
    assert_eq!(outline(&state.handle_eds(&c1, ambient_event())), "ack");
}

#[test]
fn teardown_takes_everything_of_the_cluster() {
    let mut state = CascadeState::new();
    let a = "a".to_string();
    state.handle_rds(ok_event(make_route_config("rc", &["a", "b"])), 0);
    state.handle_cds(&a, ok_event(make_cluster("a", "eds-a")));
    state.handle_rds(ok_event(make_route_config("rc", &["b"])), 100);

    assert!(state.process_due_removals(100 + CLUSTER_REMOVAL_GRACE - 1).is_empty());
    let actions = state.process_due_removals(100 + CLUSTER_REMOVAL_GRACE);
    assert_eq!(outline(&actions), "-cds#0 -eds#2 -cluster:a -endpoints:a evict ");
    assert_eq!(evicts(&actions), vec![vec!["b".to_string()]]);
    assert!(state.eds_watchers().is_empty());

    // Back again, the cluster is watched anew, endpoints included.
    let actions = state.handle_rds(ok_event(make_route_config("rc", &["a", "b"])), 200);
    assert_eq!(outline(&actions), "add publish cds:a#3 ack");
    let actions = state.handle_cds(&a, ok_event(make_cluster("a", "eds-a")));
    assert_eq!(outline(&actions), "cluster:a eds:a/eds-a#4 ack");
}

#[test]
fn repeated_configs_do_not_push_the_deadline_out() {
    let mut state = CascadeState::new();
    state.reconcile_and_publish(make_route_config("rc", &["a", "b"]), 0);
    state.reconcile_and_publish(make_route_config("rc", &["b"]), 10);
    assert_eq!(state.next_removal(), Some(10 + CLUSTER_REMOVAL_GRACE));
    state.reconcile_and_publish(make_route_config("rc", &["b"]), 20);
    assert_eq!(state.next_removal(), Some(10 + CLUSTER_REMOVAL_GRACE));
    state.reconcile_and_publish(make_route_config("rc", &[]), 30);
    assert_eq!(state.next_removal(), Some(10 + CLUSTER_REMOVAL_GRACE));
    assert_eq!(
        state.pending_removals().get(&"b".to_string()),
        Some(&(30 + CLUSTER_REMOVAL_GRACE))
    );

    // Only what is due goes; the other keeps its watch and its client.
    let actions = state.process_due_removals(10 + CLUSTER_REMOVAL_GRACE);
    assert_eq!(evicts(&actions), vec![vec!["b".to_string()]]);
    assert_eq!(state.next_removal(), Some(30 + CLUSTER_REMOVAL_GRACE));
}

#[test]
fn events_fit_while_the_clock_can_tell_the_deadline() {
    let state = CascadeState::new();
    let config = || CascadeEvent::Rds(Some(ok_event(make_route_config("rc", &["a"]))));
    assert!(state.fits(&config(), 0));
    assert!(state.fits(&config(), u128::MAX - CLUSTER_REMOVAL_GRACE));
    assert!(!state.fits(&config(), u128::MAX - CLUSTER_REMOVAL_GRACE + 1));
    let inline = CascadeEvent::Lds(Some(ok_event(make_listener_inline(&["a"]))));
    assert!(!state.fits(&inline, u128::MAX));
    let listener = CascadeEvent::Lds(Some(ok_event(make_listener_rds("rc"))));
    assert!(state.fits(&listener, u128::MAX));
    assert!(state.fits(&CascadeEvent::Removal, u128::MAX));
    assert!(state.fits(&CascadeEvent::Rds(Some(err_event())), u128::MAX));
}

#[test]
fn the_listener_is_watched_first() {
    let state = CascadeState::new();
    assert_eq!(outline(&state.start("my-service")), "lds:my-service ");
}

/// Resources are handed on as they were delivered, handle included.
#[test]
fn handles_are_handed_on() {
    let mut state = CascadeState::new();
    let config = RouteConfigResource { handle: 7, ..make_route_config("rc", &["a"]) };
    let actions = state.handle_rds(ok_event(config), 0);
    assert_eq!(published(&actions).unwrap().handle, 7);
    let a = "a".to_string();
    let cluster = ClusterResource { handle: 8, ..make_cluster("a", "e") };
    let actions = state.handle_cds(&a, ok_event(cluster));
    assert!(matches!(
        &actions[0],
        CascadeAction::UpdateCluster { resource, .. } if resource.handle == 8
    ));
    let endpoints =
        EndpointsResource { cluster_name: "e".into(), localities: vec![], handle: 9 };
    let actions = state.handle_eds(&a, ok_event(endpoints));
    assert!(matches!(
        &actions[0],
        CascadeAction::UpdateEndpoints { endpoints, .. } if endpoints.handle == 9
    ));
}

/// Inline and delivered configurations lead to the same, but for the watch of the
/// route configuration.
#[test]
fn inline_and_delivered_configs_agree() {
    let mut inline = CascadeState::new();
    let mut delivered = CascadeState::new();
    for state in [&mut inline, &mut delivered] {
        state.handle_lds(ok_event(make_listener_rds("rc")), 0);
        state.handle_rds(ok_event(make_route_config("rc", &["a", "b"])), 0);
    }
    let from_inline = inline.handle_lds(ok_event(make_listener_inline(&["b", "c"])), 5);
    let from_rds = delivered.handle_rds(ok_event(make_route_config("inline-rc", &["b", "c"])), 5);
    assert_eq!(outline(&from_inline), format!("-rds#0 {}", outline(&from_rds)));
    assert_eq!(adds(&from_inline), adds(&from_rds));
    assert_eq!(published(&from_inline), published(&from_rds));
    assert_eq!(watched(inline.cds_watchers()), watched(delivered.cds_watchers()));
    assert_eq!(inline.next_removal(), delivered.next_removal());
    assert_eq!(inline.rds_name(), None);
    assert_eq!(delivered.rds_name(), Some("rc"));
}

/// Every watched cluster is either in the configuration or on its way out.
#[test]
fn watched_clusters_are_routed_or_leaving() {
    let mut state = CascadeState::new();
    let configs: [&[&str]; 5] = [&["a", "b"], &["b", "c"], &[], &["c", "d"], &["a"]];
    let mut now: u128 = 0;
    for config in configs {
        state.handle_rds(ok_event(make_route_config("rc", config)), now);
        now += CLUSTER_REMOVAL_GRACE / 2 + MILLISECOND;
        state.process_due_removals(now);
        let mut expected: Vec<String> = config.iter().map(|c| c.to_string()).collect();
        for i in 0..state.pending_removals().len() {
            let (name, _) = state.pending_removals().at(i);
            assert!(!expected.contains(name));
            expected.push(name.clone());
        }
        expected.sort();
        assert_eq!(watched(state.cds_watchers()), expected);
    }
}

#[test]
fn nothing_pending_means_no_timer() {
    let mut state = CascadeState::new();
    assert_eq!(state.next_removal(), None);
    assert!(state.process_due_removals(u128::MAX).is_empty());
}

#[test]
fn higher_levels_come_first() {
    let mut state = CascadeState::new();
    assert_eq!(state.poll_order(), vec![Arm::Lds]);
    state.handle_lds(ok_event(make_listener_rds("rc")), 0);
    state.handle_rds(ok_event(make_route_config("rc", &["a", "b"])), 0);
    state.handle_cds(&"a".to_string(), ok_event(make_cluster("a", "a")));
    assert_eq!(state.poll_order(), vec![Arm::Lds, Arm::Rds, Arm::Cds, Arm::Eds]);
    state.handle_rds(ok_event(make_route_config("rc", &["a"])), 7);
    assert_eq!(
        state.poll_order(),
        vec![
            Arm::Lds,
            Arm::Rds,
            Arm::Removal(7 + CLUSTER_REMOVAL_GRACE),
            Arm::Cds,
            Arm::Eds
        ]
    );
}

#[test]
fn steps_follow_the_watches() {
    let mut state = CascadeState::new();
    let listener = CascadeEvent::Lds(Some(ok_event(make_listener_rds("rc"))));
    assert_eq!(outline(&state.step(listener, 0).unwrap()), "rds:rc#0 ack");
    let config = CascadeEvent::Rds(Some(ok_event(make_route_config("rc", &["a"]))));
    assert_eq!(outline(&state.step(config, 0).unwrap()), "add publish cds:a#1 ack");
    let cluster = CascadeEvent::Cds("a".into(), Some(ok_event(make_cluster("a", "e"))));
    assert_eq!(outline(&state.step(cluster, 0).unwrap()), "cluster:a eds:a/e#2 ack");
    let endpoints = EndpointsResource { cluster_name: "e".into(), localities: vec![], handle: 0 };
    let endpoints = CascadeEvent::Eds("a".into(), Some(ok_event(endpoints)));
    assert_eq!(outline(&state.step(endpoints, 0).unwrap()), "endpoints:a ack");
    assert!(state.step(CascadeEvent::Removal, 0).unwrap().is_empty());

    // A closed watch of endpoints or of a cluster leaves the map.
    assert!(state.step(CascadeEvent::Eds("a".into(), None), 0).unwrap().is_empty());
    assert!(state.eds_watchers().is_empty());
    assert!(state.step(CascadeEvent::Cds("a".into(), None), 0).unwrap().is_empty());
    assert!(state.cds_watchers().is_empty());

    // A closed watch of the route configuration waits for the next listener.
    assert_eq!(outline(&state.step(CascadeEvent::Rds(None), 0).unwrap()), "-rds#0 ");
    assert_eq!(state.rds_name(), None);
    let listener = CascadeEvent::Lds(Some(ok_event(make_listener_rds("rc"))));
    assert_eq!(outline(&state.step(listener, 0).unwrap()), "rds:rc#3 ack");

    // The closed watch of the listener ends the cascade.
    assert!(state.step(CascadeEvent::Lds(None), 0).is_none());
}

/// Performs the actions of the cascade on the clients and the routes, and checks
/// after each one that every routed cluster has a client.
fn perform(
    sync: &mut RegistryClusterSync,
    routed: &mut Vec<String>,
    actions: Vec<CascadeAction>,
) {
    for action in actions {
        sync.perform(&action);
        if let CascadeAction::PublishRouteConfig(config) = action {
            *routed = members(&config.cluster_names());
        }
        let service = XdsLbService::new(sync.registry());
        for cluster in routed.iter() {
            let decision = RouteDecision { cluster: cluster.clone() };
            assert_eq!(service.call_decided(Some(decision)).unwrap().name(), cluster);
        }
    }
}

#[test]
fn routed_clusters_always_have_clients() {
    let mut state = CascadeState::new();
    let mut sync = RegistryClusterSync::new(ClusterClientRegistry::new());
    let mut routed: Vec<String> = Vec::new();
    let configs: [&[&str]; 6] =
        [&["a", "b"], &["b", "c"], &["a"], &[], &["c", "d", "a"], &["d"]];
    let mut now: u128 = 0;
    for config in configs {
        let actions = state.handle_rds(ok_event(make_route_config("rc", config)), now);
        perform(&mut sync, &mut routed, actions);
        now += CLUSTER_REMOVAL_GRACE / 2 + MILLISECOND;
        let actions = state.process_due_removals(now);
        perform(&mut sync, &mut routed, actions);
    }
}

/// A cluster that is dropped and restored within the grace keeps its client; one
/// that is restored later gets another.
#[test]
fn flapping_cluster_keeps_its_client() {
    let mut state = CascadeState::new();
    let mut sync = RegistryClusterSync::new(ClusterClientRegistry::new());
    let mut routed: Vec<String> = Vec::new();
    let mut configure = |state: &mut CascadeState, names: &[&str], now: u128| {
        let actions = state.handle_rds(ok_event(make_route_config("rc", names)), now);
        perform(&mut sync, &mut routed, actions);
        let actions = state.process_due_removals(now);
        perform(&mut sync, &mut routed, actions);
        sync.registry().get_cluster("a").map(|c| c.channel())
    };
    let first = configure(&mut state, &["a"], 0);
    assert!(first.is_some());
    assert_eq!(configure(&mut state, &[], 1), first);
    assert_eq!(configure(&mut state, &["a"], CLUSTER_REMOVAL_GRACE), first);
    assert_eq!(configure(&mut state, &[], CLUSTER_REMOVAL_GRACE + 1), first);
    assert_eq!(configure(&mut state, &[], 2 * CLUSTER_REMOVAL_GRACE), first);
    assert_eq!(configure(&mut state, &[], 2 * CLUSTER_REMOVAL_GRACE + 1), None);
    let second = configure(&mut state, &["a"], 3 * CLUSTER_REMOVAL_GRACE);
    assert!(second.is_some() && second != first);
}

/// The watch of a leaving cluster's endpoints is kept through the grace: other clusters
/// and errors do not end it.
#[test]
fn endpoint_watch_is_kept_through_the_grace() {
    let mut state = CascadeState::new();
    let (a, b) = ("a".to_string(), "b".to_string());
    state.handle_rds(ok_event(make_route_config("rc", &["a", "b"])), 0);
    state.handle_cds(&a, ok_event(make_cluster("a", "eds-a")));
    state.handle_cds(&b, ok_event(make_cluster("b", "eds-b")));
    let mut done: Vec<CascadeAction> = Vec::new();
    done.append(&mut state.handle_rds(ok_event(make_route_config("rc", &["b"])), 1));
    done.append(&mut state.handle_cds(&a, ok_event(make_cluster("a", "eds-a"))));
    done.append(&mut state.handle_cds(&a, err_event()));
    done.append(&mut state.handle_cds(&b, ok_event(make_cluster("b", "eds-b2"))));
    done.append(&mut state.process_due_removals(CLUSTER_REMOVAL_GRACE));
    assert_eq!(watched(state.eds_watchers()), vec!["a", "b"]);
    let ended: Vec<u64> = done
        .iter()
        .filter_map(|action| match action {
            CascadeAction::DropEndpointsWatch(watch) => Some(*watch),
            _ => None,
        })
        .collect();
    // Only the renamed endpoints of "b" had their watch ended.
    assert_eq!(ended, vec![3]);
    assert!(outline(&state.process_due_removals(CLUSTER_REMOVAL_GRACE + 1)).contains("-eds#2 "));
}

/// The watch of a routed cluster that closed is opened again by the next
/// configuration that names the cluster.
#[test]
fn closed_cluster_watch_is_renewed_by_the_next_config() {
    let mut state = CascadeState::new();
    state.handle_rds(ok_event(make_route_config("rc", &["a"])), 0);
    state.step(CascadeEvent::Cds("a".into(), None), 0);
    assert!(state.cds_watchers().is_empty());
    let actions = state.handle_rds(ok_event(make_route_config("rc", &["a"])), 0);
    assert_eq!(outline(&actions), "add publish cds:a#1 ack");
}

#[test]
fn watcher_map_replaces_and_removes() {
    let mut watchers = WatcherMap::new();
    assert!(watchers.is_empty());
    assert_eq!(watchers.insert("a".to_string(), 1), None);
    assert_eq!(watchers.insert("b".to_string(), 2), None);
    assert_eq!(watchers.insert("a".to_string(), 3), Some(1));
    assert_eq!(watchers.len(), 2);
    assert_eq!(watched(&watchers), vec!["a", "b"]);
    assert_eq!(watchers.remove(&"a".to_string()), Some(3));
    assert_eq!(watchers.remove(&"a".to_string()), None);
    assert!(!watchers.contains_key("a"));
    assert!(watchers.contains_key("b"));
    assert!(!watchers.is_empty());
}
