use tonic_xds::{
    EndpointAction, EndpointAddress, EndpointDiff, EndpointsResource, HealthStatus,
    LocalityEndpoints, ResolvedEndpoint,
};

#[derive(Debug, PartialEq)]
enum Change {
    Insert(String),
    Remove(String),
}

fn with_health(cluster: &str, addrs: &[(&str, u16, HealthStatus)]) -> EndpointsResource {
    EndpointsResource {
        cluster_name: cluster.to_string(),
        localities: vec![LocalityEndpoints {
            endpoints: addrs
                .iter()
                .map(|(host, port, health_status)| ResolvedEndpoint {
                    address: EndpointAddress::new(host, *port),
                    health_status: *health_status,
                    load_balancing_weight: 1,
                })
                .collect(),
            load_balancing_weight: 100,
            priority: 0,
        }],
        handle: 0,
    }
}

fn make_endpoints(cluster: &str, addrs: &[(&str, u16)]) -> EndpointsResource {
    let healthy: Vec<(&str, u16, HealthStatus)> =
        addrs.iter().map(|(host, port)| (*host, *port, HealthStatus::Healthy)).collect();
    with_health(cluster, &healthy)
}

/// Hands the diff a snapshot, lets every attempt succeed that was not
/// cancelled, and returns the changes that the balancer sees.
fn deliver(diff: &mut EndpointDiff, snapshot: Option<&EndpointsResource>) -> Vec<Change> {
    let mut changes = Vec::new();
    let mut attempts: Vec<EndpointAddress> = Vec::new();
    for action in diff.on_snapshot(snapshot) {
        match action {
            EndpointAction::Connect(addr) => attempts.push(addr),
            EndpointAction::Cancel(addr) => attempts.retain(|a| *a != addr),
            EndpointAction::Remove(addr) => changes.push(Change::Remove(addr.to_string())),
            EndpointAction::Insert(_) => panic!("a snapshot must not insert"),
            EndpointAction::Resubscribe => assert!(snapshot.is_none()),
        }
    }
    for addr in attempts {
        match diff.on_connected(&addr) {
            Some(EndpointAction::Insert(addr)) => changes.push(Change::Insert(addr.to_string())),
            other => panic!("expected Insert, got {:?}", other),
        }
    }
    changes
}

#[test]
fn initial_endpoints_emitted_as_inserts() {
    let mut diff = EndpointDiff::new();
    let endpoints = make_endpoints("c1", &[("10.0.0.1", 8080), ("10.0.0.2", 8080)]);
    let mut addrs: Vec<String> = Vec::new();
    for change in deliver(&mut diff, Some(&endpoints)) {
        match change {
            Change::Insert(addr) => addrs.push(addr),
            Change::Remove(_) => panic!("expected Insert"),
        }
    }
    addrs.sort();
    assert_eq!(addrs, vec!["10.0.0.1:8080", "10.0.0.2:8080"]);
}

#[test]
fn added_endpoint_emits_insert() {
    let mut diff = EndpointDiff::new();
    deliver(&mut diff, Some(&make_endpoints("c1", &[("10.0.0.1", 8080)])));

    let changes = deliver(
        &mut diff,
        Some(&make_endpoints("c1", &[("10.0.0.1", 8080), ("10.0.0.2", 8080)])),
    );
    assert_eq!(changes, vec![Change::Insert("10.0.0.2:8080".to_string())]);
}

#[test]
fn removed_endpoint_emits_remove() {
    let mut diff = EndpointDiff::new();
    deliver(
        &mut diff,
        Some(&make_endpoints("c1", &[("10.0.0.1", 8080), ("10.0.0.2", 8080)])),
    );

    let changes = deliver(&mut diff, Some(&make_endpoints("c1", &[("10.0.0.1", 8080)])));
    assert_eq!(changes, vec![Change::Remove("10.0.0.2:8080".to_string())]);
}

#[test]
fn unhealthy_endpoint_removed() {
    let mut diff = EndpointDiff::new();
    deliver(&mut diff, Some(&make_endpoints("c1", &[("10.0.0.1", 8080)])));

    let unhealthy = with_health("c1", &[("10.0.0.1", 8080, HealthStatus::Unhealthy)]);
    let changes = deliver(&mut diff, Some(&unhealthy));
    assert_eq!(changes, vec![Change::Remove("10.0.0.1:8080".to_string())]);
}

#[test]
fn cache_removal_drains_and_survives_readdition() {
    let mut diff = EndpointDiff::new();
    deliver(&mut diff, Some(&make_endpoints("c1", &[("10.0.0.1", 8080)])));

    // Removal drains the balancer but does not end the diff: the cluster name
    // may return.
    let changes = deliver(&mut diff, None);
    assert_eq!(changes, vec![Change::Remove("10.0.0.1:8080".to_string())]);

    // Re-addition under the same name resolves fresh endpoints.
    let changes = deliver(&mut diff, Some(&make_endpoints("c1", &[("10.0.0.2", 9090)])));
    assert_eq!(changes, vec![Change::Insert("10.0.0.2:9090".to_string())]);
}

#[test]
fn multiple_clusters_independent() {
    let mut d1 = EndpointDiff::new();
    let mut d2 = EndpointDiff::new();
    let c1 = make_endpoints("c1", &[("10.0.0.1", 8080)]);
    let c2 = make_endpoints("c2", &[("10.0.0.2", 9090)]);
    assert_eq!(
        deliver(&mut d1, Some(&c1)),
        vec![Change::Insert("10.0.0.1:8080".to_string())]
    );
    assert_eq!(
        deliver(&mut d2, Some(&c2)),
        vec![Change::Insert("10.0.0.2:9090".to_string())]
    );
}

#[test]
fn endpoint_swap_emits_insert_then_remove() {
    let mut diff = EndpointDiff::new();
    deliver(&mut diff, Some(&make_endpoints("c1", &[("10.0.0.1", 8080)])));

    let mut saw_remove = false;
    let mut saw_insert = false;
    for change in deliver(&mut diff, Some(&make_endpoints("c1", &[("10.0.0.2", 8080)]))) {
        match change {
            Change::Remove(addr) => {
                assert_eq!(addr, "10.0.0.1:8080");
                saw_remove = true;
            }
            Change::Insert(addr) => {
                assert_eq!(addr, "10.0.0.2:8080");
                saw_insert = true;
            }
        }
    }
    assert!(saw_remove, "should have removed old endpoint");
    assert!(saw_insert, "should have inserted new endpoint");
}

/// Attempts are started before endpoints are let go of.
#[test]
fn snapshot_actions_come_in_order() {
    let mut diff = EndpointDiff::new();
    deliver(&mut diff, Some(&make_endpoints("c1", &[("10.0.0.1", 8080)])));
    let actions = diff.on_snapshot(Some(&make_endpoints("c1", &[("10.0.0.2", 8080)])));
    assert_eq!(
        actions,
        vec![
            EndpointAction::Connect(EndpointAddress::new("10.0.0.2", 8080)),
            EndpointAction::Cancel(EndpointAddress::new("10.0.0.1", 8080)),
            EndpointAction::Remove(EndpointAddress::new("10.0.0.1", 8080)),
        ]
    );
}

/// An endpoint that never connects is never given to the balancer, and is
/// cancelled without a removal when it goes.
#[test]
fn unconnected_endpoint_is_cancelled_only() {
    let mut diff = EndpointDiff::new();
    let blackholed = EndpointAddress::new("192.0.2.1", 50051);
    let actions = diff.on_snapshot(Some(&make_endpoints("c1", &[("192.0.2.1", 50051)])));
    assert_eq!(actions, vec![EndpointAction::Connect(blackholed.clone())]);
    assert_eq!(diff.desired().len(), 1);
    assert_eq!(diff.inserted().len(), 0);

    let actions = diff.on_snapshot(Some(&make_endpoints("c1", &[])));
    assert_eq!(actions, vec![EndpointAction::Cancel(blackholed.clone())]);

    // A connection that completes all the same is not taken up.
    assert_eq!(diff.on_connected(&blackholed), None);
    assert_eq!(diff.inserted().len(), 0);
}

/// An endpoint that goes while it is connecting and comes back is connected to anew,
/// and given to the balancer once.
#[test]
fn returning_endpoint_starts_a_new_attempt() {
    let mut diff = EndpointDiff::new();
    let a = EndpointAddress::new("10.0.0.1", 8080);
    let with = make_endpoints("c1", &[("10.0.0.1", 8080)]);
    let without = make_endpoints("c1", &[]);
    assert_eq!(diff.on_snapshot(Some(&with)), vec![EndpointAction::Connect(a.clone())]);
    assert_eq!(diff.on_snapshot(Some(&without)), vec![EndpointAction::Cancel(a.clone())]);
    assert_eq!(diff.on_snapshot(Some(&with)), vec![EndpointAction::Connect(a.clone())]);
    assert_eq!(diff.on_connected(&a), Some(EndpointAction::Insert(a.clone())));
    assert_eq!(
        diff.on_snapshot(Some(&without)),
        vec![EndpointAction::Cancel(a.clone()), EndpointAction::Remove(a.clone())]
    );
}

#[test]
fn same_snapshot_changes_nothing() {
    let mut diff = EndpointDiff::new();
    let endpoints = make_endpoints("c1", &[("10.0.0.1", 8080), ("10.0.0.2", 8080)]);
    deliver(&mut diff, Some(&endpoints));
    assert!(diff.on_snapshot(Some(&endpoints)).is_empty());
}

#[test]
fn repeated_and_unhealthy_endpoints_count_once() {
    let mut diff = EndpointDiff::new();
    let endpoints = EndpointsResource {
        cluster_name: "c1".to_string(),
        localities: vec![
            make_endpoints("c1", &[("10.0.0.1", 8080), ("10.0.0.1", 8081)]).localities.remove(0),
            with_health(
                "c1",
                &[
                    ("10.0.0.1", 8080, HealthStatus::Healthy),
                    ("10.0.0.2", 8080, HealthStatus::Unhealthy),
                ],
            )
            .localities
            .remove(0),
        ],
        handle: 0,
    };
    let changes = deliver(&mut diff, Some(&endpoints));
    assert_eq!(
        changes,
        vec![
            Change::Insert("10.0.0.1:8080".to_string()),
            Change::Insert("10.0.0.1:8081".to_string()),
        ]
    );
}

/// Removal without any endpoint still asks for a new watch.
#[test]
fn removal_of_an_empty_cluster_resubscribes() {
    let mut diff = EndpointDiff::new();
    assert_eq!(diff.on_snapshot(None), vec![EndpointAction::Resubscribe]);
}

/// Replaying the changes gives the endpoints that the diff takes the balancer
/// to have.
#[test]
fn replayed_changes_are_the_members() {
    let mut diff = EndpointDiff::new();
    let mut members: Vec<String> = Vec::new();
    let snapshots: [&[(&str, u16)]; 4] = [
        &[("a", 1), ("b", 2)],
        &[("b", 2), ("c", 3)],
        &[],
        &[("a", 1), ("c", 3), ("d", 4)],
    ];
    for snapshot in snapshots {
        for change in deliver(&mut diff, Some(&make_endpoints("c1", snapshot))) {
            match change {
                Change::Insert(addr) => {
                    assert!(!members.contains(&addr));
                    members.push(addr);
                }
                Change::Remove(addr) => {
                    assert!(members.contains(&addr));
                    members.retain(|m| *m != addr);
                }
            }
        }
        let mut wanted: Vec<String> =
            snapshot.iter().map(|(h, p)| format!("{}:{}", h, p)).collect();
        wanted.sort();
        members.sort();
        assert_eq!(members, wanted);
        assert_eq!(diff.inserted().len(), wanted.len());
    }
}

#[test]
fn addresses_print_as_host_and_port() {
    assert_eq!(EndpointAddress::new("10.0.0.1", 0).to_string(), "10.0.0.1:0");
    assert_eq!(EndpointAddress::new("localhost", 65535).to_string(), "localhost:65535");
    let addr = EndpointAddress::new("h", 8080);
    assert_eq!((addr.host(), addr.port()), ("h", 8080));
}
