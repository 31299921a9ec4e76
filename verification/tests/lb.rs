use tonic_xds::{
    CallError, ClusterClientRegistry, KeySet, LoadBalancingError, RouteDecision, RoutingError,
    RpcStatus, XdsError, XdsLbService,
};

fn registry(names: &[&str]) -> ClusterClientRegistry {
    let mut active = KeySet::new();
    for name in names {
        active.insert(name.to_string());
    }
    let mut r = ClusterClientRegistry::new();
    r.sync_clusters(&active);
    r
}

fn decided(cluster: &str) -> http::Extensions {
    let mut extensions = http::Extensions::new();
    extensions.insert(RouteDecision { cluster: cluster.to_string() });
    extensions
}

#[test]
fn request_goes_to_the_decided_cluster() {
    let registry = registry(&["a", "b"]);
    let service = XdsLbService::new(&registry);
    assert!(service.poll_ready());
    let client = service.call(&decided("b")).unwrap();
    assert_eq!((client.name(), client.channel()), ("b", 1));
    let again = service.clone().call(&decided("a")).unwrap();
    assert_eq!((again.name(), again.channel()), ("a", 0));
}

#[test]
fn request_without_decision_is_refused() {
    let registry = registry(&["a"]);
    let service = XdsLbService::new(&registry);
    let mut extensions = http::Extensions::new();
    extensions.insert("a".to_string());
    assert_eq!(
        service.call(&extensions),
        Err(CallError::LoadBalancing(LoadBalancingError::NoRoutingDecision))
    );
    assert_eq!(
        service.call_decided(None),
        Err(CallError::LoadBalancing(LoadBalancingError::NoRoutingDecision))
    );
}

#[test]
fn request_for_unknown_cluster_is_unavailable() {
    let registry = registry(&["a"]);
    let service = XdsLbService::new(&registry);
    let expected = RpcStatus {
        code: i32::from(tonic::Code::Unavailable),
        message: "no client for cluster 'gone': not in the current route configuration"
            .to_string(),
    };
    assert_eq!(service.call(&decided("gone")), Err(CallError::Status(expected)));
    // The lookup does not bring the cluster into being.
    assert!(registry.get_cluster("gone").is_none());
}

#[test]
fn texts_of_load_balancing_errors() {
    assert_eq!(
        LoadBalancingError::NoRoutingDecision.to_string(),
        "No routing decision extension from the routing layer available"
    );
    assert_eq!(
        LoadBalancingError::ClusterNotFound("c".to_string()).to_string(),
        "no client for cluster 'c': not in the current route configuration"
    );
}

#[test]
fn errors_are_classified() {
    let routing = RoutingError { message: "no matching route".to_string() };
    let lb = LoadBalancingError::NoRoutingDecision;
    assert_eq!(
        XdsError::from_box_error(1, Some(&routing), None),
        XdsError::Routing(routing.clone())
    );
    assert_eq!(
        XdsError::from_box_error(1, Some(&routing), Some(&lb)),
        XdsError::Routing(routing.clone())
    );
    assert_eq!(
        XdsError::from_box_error(1, None, Some(&lb)),
        XdsError::LoadBalancing(lb.clone())
    );
    assert_eq!(XdsError::from_box_error(1, None, None), XdsError::Transport(1));
}

#[test]
fn texts_of_errors() {
    let routing: XdsError<()> =
        XdsError::Routing(RoutingError { message: "no matching route".to_string() });
    assert_eq!(routing.to_string(""), "routing failed: no matching route");
    let lb: XdsError<()> = XdsError::LoadBalancing(LoadBalancingError::NoRoutingDecision);
    assert_eq!(
        lb.to_string(""),
        "load balancing error: No routing decision extension from the routing layer available"
    );
    let transport: XdsError<()> = XdsError::Transport(());
    assert_eq!(transport.to_string("connection refused"), "transport error: connection refused");
}

/// A request that raced an eviction keeps the client it was given; a later one fails,
/// and neither brings the cluster back.
#[test]
fn eviction_race_leaves_the_registry_alone() {
    let mut registry = registry(&["a", "k"]);
    let early = XdsLbService::new(&registry).call(&decided("k")).unwrap();
    assert_eq!((early.name(), early.channel()), ("k", 1));
    let mut active = KeySet::new();
    active.insert("a".to_string());
    registry.sync_clusters(&active);
    match XdsLbService::new(&registry).call(&decided("k")) {
        Err(CallError::Status(status)) => {
            assert_eq!(status.code, i32::from(tonic::Code::Unavailable))
        }
        other => panic!("expected UNAVAILABLE, got {:?}", other),
    }
    assert!(registry.get_cluster("k").is_none());
    assert_eq!(registry.get_cluster("a").unwrap().channel(), 0);
}
