use cortexdb::cluster::{ClusterManager, NodeInfo, NodeStatus};
use cortexdb::metrics::{ClusterMetrics, MetricsCollector, NodeMetrics};

fn sample(node: &str, queries: u64, vectors: u64, at: u64) -> NodeMetrics {
    NodeMetrics {
        node_id: node.to_string(),
        cpu_usage: 12.5f64.to_bits(),
        memory_usage: 50.0f64.to_bits(),
        disk_usage: 75.0f64.to_bits(),
        network_in: 1,
        network_out: 2,
        query_count: queries,
        query_latency: 3.5f64.to_bits(),
        vector_count: vectors,
        timestamp: at,
    }
}

fn cluster() -> ClusterManager {
    let mut c = ClusterManager::for_node("self".to_string(), "localhost".to_string(), 8080, 0);
    for (id, status) in [("n1", NodeStatus::Healthy), ("n2", NodeStatus::Unhealthy)] {
        c.add_node(NodeInfo {
            id: id.to_string(),
            address: "h".to_string(),
            port: 1,
            is_leader: false,
            status,
            last_heartbeat: 0,
        })
        .unwrap();
    }
    c
}

#[test]
fn metrics_defaults() {
    let m = MetricsCollector::new();
    assert_eq!(m.collection_interval_secs(), 10);
    assert!(m.list_node_metrics().is_empty());
    assert!(m.get_cluster_metrics().is_none());
    assert!(m.get_node_metrics("n1").is_none());
}

#[test]
fn with_interval_sets_the_interval() {
    let mut m = MetricsCollector::new();
    m.record_node_metrics(sample("n1", 1, 2, 3));
    let m = m.with_interval(42);
    assert_eq!(m.collection_interval_secs(), 42);
    assert_eq!(m.list_node_metrics().len(), 1);
}

#[test]
fn record_returns_the_sample() {
    let mut m = MetricsCollector::new();
    let s = m.record_node_metrics(sample("n1", 7, 9, 3));
    assert_eq!(s.node_id, "n1");
    assert_eq!(s.cpu_usage, 12.5f64.to_bits());
    assert_eq!(s.memory_usage, 50.0f64.to_bits());
    assert_eq!(s.disk_usage, 75.0f64.to_bits());
    assert_eq!(s.network_in, 1);
    assert_eq!(s.network_out, 2);
    assert_eq!(s.query_count, 7);
    assert_eq!(s.query_latency, 3.5f64.to_bits());
    assert_eq!(s.vector_count, 9);
    assert_eq!(s.timestamp, 3);
}

#[test]
fn get_node_metrics_returns_the_latest_sample() {
    let mut m = MetricsCollector::new();
    m.record_node_metrics(sample("n1", 1, 0, 10));
    m.record_node_metrics(sample("n2", 2, 0, 11));
    m.record_node_metrics(sample("n1", 3, 0, 12));
    m.record_node_metrics(sample("n2", 4, 0, 13));
    m.record_node_metrics(sample("n3", 5, 0, 14));
    assert_eq!(m.get_node_metrics("n1").unwrap().query_count, 3);
    assert_eq!(m.get_node_metrics("n2").unwrap().timestamp, 13);
    assert_eq!(m.get_node_metrics("n3").unwrap().query_count, 5);
    assert!(m.get_node_metrics("n4").is_none());
}

#[test]
fn collect_node_metrics_draws_counters_in_range() {
    let mut m = MetricsCollector::new();
    let mut seen = std::collections::HashSet::new();
    for _ in 0..50 {
        let s = m.collect_node_metrics("n1", 1, 2, 3, 4);
        assert_eq!(s.node_id, "n1");
        assert_eq!((s.cpu_usage, s.memory_usage, s.disk_usage, s.query_latency), (1, 2, 3, 4));
        assert!(s.network_in < 1_000_000);
        assert!(s.network_out < 1_000_000);
        assert!(s.vector_count < 1_000_000);
        assert!(s.query_count < 1_000);
        assert!(s.timestamp > 1_600_000_000);
        seen.insert((s.network_in, s.network_out, s.vector_count, s.query_count));
    }
    assert!(seen.len() > 1);
    assert_eq!(m.list_node_metrics().len(), 50);
}

#[test]
fn summary_sums_all_samples() {
    let mut m = MetricsCollector::new();
    m.record_node_metrics(sample("n1", 10, 100, 1));
    m.record_node_metrics(sample("n2", 20, 200, 2));
    m.record_node_metrics(sample("n1", 30, 300, 3));
    let expected = ClusterMetrics {
        total_nodes: 3,
        healthy_nodes: 1,
        total_vectors: 600,
        total_queries: 60,
        average_query_latency: 3.5f64.to_bits(),
        timestamp: 99,
    };
    assert_eq!(m.summarize_cluster(&cluster(), 3.5f64.to_bits(), 99), Some(expected));
    assert_eq!(m.get_cluster_metrics(), Some(expected));
}

#[test]
fn summary_without_samples_is_zero() {
    let mut m = MetricsCollector::new();
    let got = m.summarize_cluster(&cluster(), 0, 5).unwrap();
    assert_eq!(got.total_vectors, 0);
    assert_eq!(got.total_queries, 0);
    assert_eq!(got.total_nodes, 3);
    assert_eq!(got.healthy_nodes, 1);
}

#[test]
fn summary_refuses_sums_beyond_64_bits() {
    let mut m = MetricsCollector::new();
    m.record_node_metrics(sample("n1", u64::MAX, 1, 1));
    let at_limit = m.summarize_cluster(&cluster(), 0, 5).unwrap();
    assert_eq!(at_limit.total_queries, u64::MAX);
    m.record_node_metrics(sample("n2", 1, 1, 2));
    assert_eq!(m.summarize_cluster(&cluster(), 0, 6), None);
    assert_eq!(m.get_cluster_metrics(), Some(at_limit));
    let mut v = MetricsCollector::new();
    v.record_node_metrics(sample("n1", 0, u64::MAX, 1));
    v.record_node_metrics(sample("n1", 0, u64::MAX, 1));
    assert_eq!(v.summarize_cluster(&cluster(), 0, 6), None);
    assert!(v.get_cluster_metrics().is_none());
}

#[test]
fn collect_cluster_metrics_uses_the_clock() {
    let mut m = MetricsCollector::new();
    m.record_node_metrics(sample("n1", 10, 100, 1));
    let got = m.collect_cluster_metrics(&cluster(), 7).unwrap();
    assert_eq!(got.total_queries, 10);
    assert_eq!(got.total_vectors, 100);
    assert_eq!(got.average_query_latency, 7);
    assert!(got.timestamp > 1_600_000_000);
    assert_eq!(m.get_cluster_metrics(), Some(got));
}
