use cortexdb::cluster::{ClusterManager, NodeInfo, NodeStatus};
use cortexdb::monitor::{HealthChecker, MonitoringDashboard};
use cortexdb::replication::{ReplicationConfig, ReplicationManager, ReplicationStatus};

fn keys(statuses: &[ReplicationStatus]) -> Vec<(String, String, u64)> {
    statuses
        .iter()
        .map(|s| (s.node_id.clone(), s.collection_name.clone(), s.last_replication))
        .collect()
}

fn key(node: &str, collection: &str, at: u64) -> (String, String, u64) {
    (node.to_string(), collection.to_string(), at)
}

#[test]
fn replication_defaults() {
    let m = ReplicationManager::new();
    let c = m.config();
    assert_eq!(c.replica_count, 2);
    assert_eq!(c.replication_factor, 3);
    assert!(!c.sync_replication);
    assert_eq!(c.replication_interval_secs, 60);
    assert_eq!(c.replication_timeout_secs, 30);
    assert!(m.list_replication_statuses().unwrap().is_empty());
}

#[test]
fn with_config_replaces_the_configuration() {
    let mut m = ReplicationManager::new();
    m.record_replication("n1", "docs", 5);
    let m = m.with_config(ReplicationConfig {
        replica_count: 5,
        replication_factor: 7,
        sync_replication: true,
        replication_interval_secs: 1,
        replication_timeout_secs: 2,
    });
    let c = m.config();
    assert_eq!(c.replica_count, 5);
    assert_eq!(c.replication_factor, 7);
    assert!(c.sync_replication);
    assert_eq!(c.replication_interval_secs, 1);
    assert_eq!(c.replication_timeout_secs, 2);
    assert_eq!(keys(&m.list_replication_statuses().unwrap()), vec![key("n1", "docs", 5)]);
}

#[test]
fn record_replication_reports_completed_status() {
    let mut m = ReplicationManager::new();
    let s = m.record_replication("n1", "docs", 42);
    assert_eq!(s.node_id, "n1");
    assert_eq!(s.collection_name, "docs");
    assert_eq!(s.replica_count, 2);
    assert_eq!(s.healthy_replicas, 2);
    assert_eq!(s.last_replication, 42);
    assert_eq!(s.status, "completed");
}

#[test]
fn record_replication_replaces_the_earlier_status() {
    let mut m = ReplicationManager::new();
    m.record_replication("n1", "docs", 1);
    m.record_replication("n2", "docs", 2);
    m.record_replication("n1", "logs", 3);
    m.record_replication("n1", "docs", 4);
    m.record_replication("n2", "docs", 5);
    assert_eq!(
        keys(&m.list_replication_statuses().unwrap()),
        vec![key("n1", "docs", 4), key("n2", "docs", 5), key("n1", "logs", 3)]
    );
}

#[test]
fn get_replication_status_finds_by_node_and_collection() {
    let mut m = ReplicationManager::new();
    m.record_replication("n1", "docs", 1);
    m.record_replication("n1", "logs", 2);
    let got = m.get_replication_status("n1", "logs").unwrap().unwrap();
    assert_eq!(got.last_replication, 2);
    assert_eq!(got.status, "completed");
    assert!(m.get_replication_status("n2", "logs").unwrap().is_none());
    assert!(m.get_replication_status("n1", "log").unwrap().is_none());
    assert!(m.get_replication_status("logs", "n1").unwrap().is_none());
}

#[test]
fn replicate_data_uses_the_clock_and_configuration() {
    let mut m = ReplicationManager::new().with_config(ReplicationConfig {
        replica_count: 4,
        replication_factor: 3,
        sync_replication: false,
        replication_interval_secs: 60,
        replication_timeout_secs: 30,
    });
    let s = m.replicate_data("n1", "docs").unwrap();
    assert_eq!(s.node_id, "n1");
    assert_eq!(s.collection_name, "docs");
    assert_eq!(s.replica_count, 4);
    assert_eq!(s.healthy_replicas, 4);
    assert_eq!(s.status, "completed");
    assert!(s.last_replication > 1_600_000_000);
    let listed = m.list_replication_statuses().unwrap();
    assert_eq!(listed.len(), 1);
    assert_eq!(listed[0].last_replication, s.last_replication);
}

#[test]
fn replicate_cluster_data_covers_every_node() {
    let mut cluster =
        ClusterManager::for_node("self".to_string(), "localhost".to_string(), 8080, 0);
    for id in ["n1", "n2"] {
        cluster
            .add_node(NodeInfo {
                id: id.to_string(),
                address: "h".to_string(),
                port: 1,
                is_leader: false,
                status: NodeStatus::Unhealthy,
                last_heartbeat: 0,
            })
            .unwrap();
    }
    let mut m = ReplicationManager::new();
    m.record_replication("n2", "all", 7);
    m.record_replication("n2", "docs", 8);
    let out = m.replicate_cluster_data(&cluster).unwrap();
    let got: Vec<(String, String)> =
        out.iter().map(|s| (s.node_id.clone(), s.collection_name.clone())).collect();
    assert_eq!(
        got,
        vec![
            ("self".to_string(), "all".to_string()),
            ("n1".to_string(), "all".to_string()),
            ("n2".to_string(), "all".to_string())
        ]
    );
    assert!(out.iter().all(|s| s.status == "completed" && s.healthy_replicas == 2));
    let listed = m.list_replication_statuses().unwrap();
    let listed_keys: Vec<(String, String)> =
        listed.iter().map(|s| (s.node_id.clone(), s.collection_name.clone())).collect();
    assert_eq!(
        listed_keys,
        vec![
            ("n2".to_string(), "all".to_string()),
            ("n2".to_string(), "docs".to_string()),
            ("self".to_string(), "all".to_string()),
            ("n1".to_string(), "all".to_string())
        ]
    );
    assert!(listed[0].last_replication > 7);
    assert_eq!(listed[1].last_replication, 8);
}

#[test]
fn monitoring_handles_can_be_made() {
    let _checker = HealthChecker::new();
    let _dashboard = MonitoringDashboard::new();
}
