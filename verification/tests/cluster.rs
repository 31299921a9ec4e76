use tonic_xds::{CascadeAction, ClusterClientRegistry, KeySet, RegistryClusterSync};

fn set(names: &[&str]) -> KeySet<String> {
    let mut r = KeySet::new();
    for name in names {
        r.insert(name.to_string());
    }
    r
}

#[test]
fn get_cluster_only_finds_synced_clusters() {
    let mut registry = ClusterClientRegistry::new();
    assert!(registry.get_cluster("a").is_none());

    registry.sync_clusters(&set(&["a"]));
    assert!(registry.get_cluster("a").is_some());
    assert!(registry.get_cluster("b").is_none());
}

/// A request racing an eviction (stale route decision) gets a lookup miss and
/// cannot resurrect the evicted client; a cluster re-entering the config gets a
/// fresh client rather than the old one.
#[test]
fn sync_clusters_evicts_and_recreates() {
    let mut registry = ClusterClientRegistry::new();
    registry.sync_clusters(&set(&["a"]));
    let first = registry.get_cluster("a").unwrap();

    registry.sync_clusters(&set(&[]));
    assert!(registry.get_cluster("a").is_none());

    registry.sync_clusters(&set(&["a"]));
    let second = registry.get_cluster("a").unwrap();
    assert!(
        first.channel() != second.channel(),
        "a re-added cluster must get a fresh client, not the evicted one",
    );
}

/// Re-syncing with a set that still holds a cluster keeps its client (and its
/// warm connections) instead of rebuilding it.
#[test]
fn sync_clusters_keeps_existing_clients() {
    let mut registry = ClusterClientRegistry::new();
    registry.sync_clusters(&set(&["a"]));
    let first = registry.get_cluster("a").unwrap();

    registry.sync_clusters(&set(&["a", "b"]));
    let same = registry.get_cluster("a").unwrap();
    assert_eq!(first.channel(), same.channel());
}

#[test]
fn sync_clusters_returns_only_new_clients() {
    let mut registry = ClusterClientRegistry::default();
    let created = registry.sync_clusters(&set(&["a", "b"]));
    let named: Vec<(&str, u64)> = created.iter().map(|c| (c.name(), c.channel())).collect();
    assert_eq!(named, vec![("a", 0), ("b", 1)]);

    let created = registry.sync_clusters(&set(&["c", "b"]));
    let named: Vec<(&str, u64)> = created.iter().map(|c| (c.name(), c.channel())).collect();
    assert_eq!(named, vec![("c", 2)]);
    assert!(registry.get_cluster("a").is_none());
    assert_eq!(registry.get_cluster("b").unwrap().channel(), 1);
    assert_eq!(registry.get_cluster("b").unwrap().name(), "b");
}

#[test]
fn sync_again_changes_nothing() {
    let mut registry = ClusterClientRegistry::new();
    registry.sync_clusters(&set(&["a", "b"]));
    assert!(registry.sync_clusters(&set(&["b", "a"])).is_empty());
    assert_eq!(registry.get_cluster("a").unwrap().channel(), 0);
    assert_eq!(registry.get_cluster("b").unwrap().channel(), 1);
}

#[test]
fn a_new_registry_has_room() {
    let mut registry = ClusterClientRegistry::new();
    assert!(registry.has_room(&set(&["a", "b"])));
    registry.add_clusters(&set(&["a"]));
    assert!(registry.has_room(&set(&["a", "b"])));
    assert!(registry.has_room(&set(&[])));
}

#[test]
fn add_keeps_and_evict_drops() {
    let mut registry = ClusterClientRegistry::new();
    registry.add_clusters(&set(&["a", "b"]));
    registry.add_clusters(&set(&["c"]));
    for name in ["a", "b", "c"] {
        assert!(registry.get_cluster(name).is_some());
    }
    registry.evict_clusters(&set(&["b", "never-seen"]));
    assert!(registry.get_cluster("a").is_none());
    assert!(registry.get_cluster("b").is_some());
    assert!(registry.get_cluster("c").is_none());
    assert!(registry.get_cluster("never-seen").is_none());
}

#[test]
fn cluster_sync_performs_the_cascades_actions() {
    let mut sync = RegistryClusterSync::new(ClusterClientRegistry::new());
    let created = sync.perform(&CascadeAction::AddClusters(set(&["a", "b"])));
    assert_eq!(created.len(), 2);
    assert!(sync.perform(&CascadeAction::Acknowledge).is_empty());
    assert!(sync.registry().get_cluster("a").is_some());

    assert!(sync.perform(&CascadeAction::EvictClusters(set(&["b"]))).is_empty());
    assert!(sync.registry().get_cluster("a").is_none());
    assert!(sync.registry().get_cluster("b").is_some());

    assert_eq!(sync.add_clusters(&set(&["a"])).len(), 1);
    sync.evict_clusters(&set(&["a"]));
    assert!(sync.registry().get_cluster("b").is_none());
}

/// Whichever synchronisations came before, a look-up finds exactly the clusters of
/// the last one, each under its own name and with a number of its own.
#[test]
fn lookups_follow_the_last_sync() {
    let mut registry = ClusterClientRegistry::new();
    let mut handed_out: Vec<(String, u64)> = Vec::new();
    let syncs: [&[&str]; 5] = [&["a", "b"], &["c"], &[], &["b", "c", "a"], &["a"]];
    for active in syncs {
        for client in registry.sync_clusters(&set(active)) {
            assert!(handed_out.iter().all(|(_, id)| *id != client.channel()));
            handed_out.push((client.name().to_string(), client.channel()));
        }
        for name in ["a", "b", "c", "d"] {
            let found = registry.get_cluster(name);
            assert_eq!(found.is_some(), active.contains(&name));
            assert_eq!(found, registry.get_cluster(name));
            if let Some(client) = found {
                assert_eq!(client.name(), name);
                assert!(handed_out.contains(&(name.to_string(), client.channel())));
                assert!(registry.holds(&client));
            }
        }
    }
}

#[test]
fn an_evicted_client_is_not_held() {
    let mut sync = RegistryClusterSync::new(ClusterClientRegistry::new());
    sync.sync_clusters(&set(&["a"]));
    let first = sync.registry().get_cluster("a").unwrap();
    assert!(sync.registry().holds(&first));
    sync.sync_clusters(&set(&[]));
    assert!(!sync.registry().holds(&first));
    sync.sync_clusters(&set(&["a"]));
    assert!(!sync.registry().holds(&first));
}
