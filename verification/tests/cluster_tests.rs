use cortexdb::cluster::{ClusterManager, NodeInfo, NodeStatus};
use cortexdb::error::CoordinationError;

fn node(id: &str, status: NodeStatus, last_heartbeat: u64) -> NodeInfo {
    NodeInfo {
        id: id.to_string(),
        address: "10.0.0.1".to_string(),
        port: 7000,
        is_leader: false,
        status,
        last_heartbeat,
    }
}

fn manager() -> ClusterManager {
    ClusterManager::for_node("self".to_string(), "localhost".to_string(), 8080, 100)
}

fn ids(nodes: &[NodeInfo]) -> Vec<String> {
    nodes.iter().map(|n| n.id.clone()).collect()
}

fn leaders(nodes: &[NodeInfo]) -> Vec<String> {
    nodes.iter().filter(|n| n.is_leader).map(|n| n.id.clone()).collect()
}

#[test]
fn new_manager_holds_only_itself() {
    let m = ClusterManager::new();
    let nodes = m.get_nodes();
    assert_eq!(nodes.len(), 1);
    assert_eq!(nodes[0].id, m.self_id());
    assert_eq!(nodes[0].id.len(), 36);
    assert_eq!(nodes[0].address, "localhost");
    assert_eq!(nodes[0].port, 8080);
    assert!(!nodes[0].is_leader);
    assert_eq!(nodes[0].status, NodeStatus::Joining);
    assert!(m.get_leader().is_none());
    assert!(!m.is_leader());
    assert!(m.get_healthy_nodes().is_empty());
}

#[test]
fn two_new_managers_have_different_ids() {
    let a = ClusterManager::new();
    let b = ClusterManager::new();
    assert_ne!(a.self_id(), b.self_id());
}

#[test]
fn for_node_starts_joining_without_leader() {
    let m = manager();
    let nodes = m.get_nodes();
    assert_eq!(ids(&nodes), vec!["self".to_string()]);
    assert_eq!(nodes[0].last_heartbeat, 100);
    assert_eq!(nodes[0].status, NodeStatus::Joining);
    assert!(m.get_leader().is_none());
}

#[test]
fn join_is_idempotent_on_duplicate_id() {
    let mut m = manager();
    assert_eq!(m.add_node(node("n1", NodeStatus::Healthy, 100)), Ok(()));
    assert_eq!(m.add_node(node("n1", NodeStatus::Unhealthy, 5)), Ok(()));
    let nodes = m.get_nodes();
    assert_eq!(ids(&nodes), vec!["self".to_string(), "n1".to_string()]);
    assert_eq!(nodes[1].status, NodeStatus::Healthy);
    assert_eq!(nodes[1].last_heartbeat, 100);
}

#[test]
fn join_and_leave_keep_ids_unique() {
    let mut m = manager();
    for id in ["a", "b", "a", "c", "b", "self", "a"] {
        m.add_node(node(id, NodeStatus::Healthy, 100)).unwrap();
    }
    m.remove_node("b").unwrap();
    m.add_node(node("b", NodeStatus::Joining, 100)).unwrap();
    m.add_node(node("b", NodeStatus::Joining, 100)).unwrap();
    m.remove_node("missing").unwrap();
    let got = ids(&m.get_nodes());
    assert_eq!(got, vec!["self", "a", "c", "b"]);
    let mut sorted = got.clone();
    sorted.sort();
    sorted.dedup();
    assert_eq!(sorted.len(), got.len());
}

#[test]
fn joining_node_never_arrives_as_leader() {
    let mut m = manager();
    let mut n = node("n1", NodeStatus::Healthy, 100);
    n.is_leader = true;
    m.add_node(n).unwrap();
    assert!(leaders(&m.get_nodes()).is_empty());
    assert!(m.get_leader().is_none());
}

#[test]
fn elect_leader_picks_smallest_healthy_id() {
    let mut m = manager();
    m.add_node(node("n1", NodeStatus::Healthy, 100)).unwrap();
    m.add_node(node("n2", NodeStatus::Healthy, 100)).unwrap();
    m.add_node(node("n3", NodeStatus::Healthy, 100)).unwrap();
    assert_eq!(m.elect_leader(), Ok(()));
    assert_eq!(m.get_leader().unwrap().id, "n1");
    assert_eq!(leaders(&m.get_nodes()), vec!["n1".to_string()]);
    m.remove_node("n1").unwrap();
    assert_eq!(m.elect_leader(), Ok(()));
    assert_eq!(m.get_leader().unwrap().id, "n2");
    assert_eq!(leaders(&m.get_nodes()), vec!["n2".to_string()]);
}

#[test]
fn removing_the_leader_elects_the_next() {
    let mut m = manager();
    m.add_node(node("n2", NodeStatus::Healthy, 100)).unwrap();
    m.add_node(node("n1", NodeStatus::Healthy, 100)).unwrap();
    m.add_node(node("n3", NodeStatus::Healthy, 100)).unwrap();
    m.elect_leader().unwrap();
    assert_eq!(m.get_leader().unwrap().id, "n1");
    m.remove_node("n1").unwrap();
    assert_eq!(m.get_leader().unwrap().id, "n2");
    assert_eq!(leaders(&m.get_nodes()), vec!["n2".to_string()]);
    assert_eq!(ids(&m.get_nodes()), vec!["self", "n2", "n3"]);
}

#[test]
fn removing_another_node_keeps_the_leader() {
    let mut m = manager();
    m.add_node(node("n1", NodeStatus::Healthy, 100)).unwrap();
    m.add_node(node("n0", NodeStatus::Unhealthy, 100)).unwrap();
    m.add_node(node("n3", NodeStatus::Healthy, 100)).unwrap();
    m.elect_leader().unwrap();
    m.remove_node("n3").unwrap();
    assert_eq!(m.get_leader().unwrap().id, "n1");
    assert_eq!(ids(&m.get_nodes()), vec!["self", "n1", "n0"]);
}

#[test]
fn election_skips_nodes_that_are_not_healthy() {
    let mut m = manager();
    m.add_node(node("a", NodeStatus::Unhealthy, 100)).unwrap();
    m.add_node(node("b", NodeStatus::Joining, 100)).unwrap();
    m.add_node(node("c", NodeStatus::Leaving, 100)).unwrap();
    m.add_node(node("z", NodeStatus::Healthy, 100)).unwrap();
    m.add_node(node("d", NodeStatus::Healthy, 100)).unwrap();
    m.elect_leader().unwrap();
    assert_eq!(m.get_leader().unwrap().id, "d");
    assert_eq!(leaders(&m.get_nodes()), vec!["d".to_string()]);
    assert_eq!(ids(&m.get_healthy_nodes()), vec!["z", "d"]);
}

#[test]
fn election_without_healthy_nodes_clears_the_leader() {
    let mut m = manager();
    m.add_node(node("n1", NodeStatus::Healthy, 100)).unwrap();
    m.elect_leader().unwrap();
    assert_eq!(m.get_leader().unwrap().id, "n1");
    m.update_node_status_at("n1", NodeStatus::Unhealthy, 200).unwrap();
    m.elect_leader().unwrap();
    assert!(m.get_leader().is_none());
    assert!(leaders(&m.get_nodes()).is_empty());
    assert!(m.get_healthy_nodes().is_empty());
}

#[test]
fn election_orders_ids_by_bytes() {
    let mut m = manager();
    m.add_node(node("node-10", NodeStatus::Healthy, 100)).unwrap();
    m.add_node(node("node-2", NodeStatus::Healthy, 100)).unwrap();
    m.add_node(node("node-", NodeStatus::Unhealthy, 100)).unwrap();
    m.add_node(node("é", NodeStatus::Healthy, 100)).unwrap();
    m.elect_leader().unwrap();
    assert_eq!(m.get_leader().unwrap().id, "node-10");
    m.remove_node("node-10").unwrap();
    assert_eq!(m.get_leader().unwrap().id, "node-2");
    m.remove_node("node-2").unwrap();
    assert_eq!(m.get_leader().unwrap().id, "é");
    m.add_node(node("Z", NodeStatus::Healthy, 100)).unwrap();
    m.add_node(node("", NodeStatus::Healthy, 100)).unwrap();
    m.elect_leader().unwrap();
    assert_eq!(m.get_leader().unwrap().id, "");
}

#[test]
fn heartbeat_makes_own_node_healthy() {
    let mut m = manager();
    assert_eq!(m.record_heartbeat(250), Ok(()));
    let nodes = m.get_nodes();
    assert_eq!(nodes[0].status, NodeStatus::Healthy);
    assert_eq!(nodes[0].last_heartbeat, 250);
    m.elect_leader().unwrap();
    assert!(m.is_leader());
    assert_eq!(m.get_leader().unwrap().id, "self");
}

#[test]
fn heartbeat_of_unknown_node_fails() {
    let mut m = manager();
    m.add_node(node("n1", NodeStatus::Healthy, 100)).unwrap();
    m.remove_node("self").unwrap();
    assert_eq!(m.record_heartbeat(250), Err(CoordinationError::UnknownNode));
    assert_eq!(m.send_heartbeat(), Err(CoordinationError::UnknownNode));
    assert_eq!(ids(&m.get_nodes()), vec!["n1"]);
}

#[test]
fn send_heartbeat_uses_the_clock() {
    let mut m = manager();
    assert_eq!(m.send_heartbeat(), Ok(()));
    let nodes = m.get_nodes();
    assert_eq!(nodes[0].status, NodeStatus::Healthy);
    assert!(nodes[0].last_heartbeat > 1_600_000_000);
}

#[test]
fn update_status_sets_status_and_time() {
    let mut m = manager();
    m.add_node(node("n1", NodeStatus::Healthy, 100)).unwrap();
    m.add_node(node("n2", NodeStatus::Healthy, 100)).unwrap();
    assert_eq!(m.update_node_status_at("n1", NodeStatus::Leaving, 321), Ok(()));
    let nodes = m.get_nodes();
    assert_eq!(nodes[1].status, NodeStatus::Leaving);
    assert_eq!(nodes[1].last_heartbeat, 321);
    assert_eq!(nodes[2].status, NodeStatus::Healthy);
    assert_eq!(nodes[2].last_heartbeat, 100);
    assert_eq!(nodes[0].status, NodeStatus::Joining);
}

#[test]
fn update_status_of_unknown_node_fails() {
    let mut m = manager();
    assert_eq!(
        m.update_node_status_at("ghost", NodeStatus::Healthy, 1),
        Err(CoordinationError::UnknownNode)
    );
    assert_eq!(
        m.update_node_status("ghost", NodeStatus::Healthy),
        Err(CoordinationError::UnknownNode)
    );
    assert_eq!(m.get_nodes().len(), 1);
}

#[test]
fn update_status_uses_the_clock() {
    let mut m = manager();
    m.add_node(node("n1", NodeStatus::Joining, 100)).unwrap();
    assert_eq!(m.update_node_status("n1", NodeStatus::Healthy), Ok(()));
    let nodes = m.get_nodes();
    assert_eq!(nodes[1].status, NodeStatus::Healthy);
    assert!(nodes[1].last_heartbeat > 1_600_000_000);
}

#[test]
fn detector_marks_only_stale_nodes() {
    let mut m = manager();
    m.add_node(node("fresh", NodeStatus::Healthy, 170)).unwrap();
    m.add_node(node("edge", NodeStatus::Healthy, 169)).unwrap();
    m.add_node(node("stale", NodeStatus::Healthy, 168)).unwrap();
    m.add_node(node("future", NodeStatus::Healthy, 500)).unwrap();
    m.add_node(node("joining", NodeStatus::Joining, 0)).unwrap();
    assert_eq!(m.check_node_health_at(199), Ok(()));
    let nodes = m.get_nodes();
    // The manager's own node is never marked, however old its heartbeat.
    assert_eq!(nodes[0].status, NodeStatus::Joining);
    assert_eq!(nodes[1].status, NodeStatus::Healthy);
    // Exactly 30 seconds old is not yet stale.
    assert_eq!(nodes[2].status, NodeStatus::Healthy);
    assert_eq!(nodes[3].status, NodeStatus::Unhealthy);
    assert_eq!(nodes[4].status, NodeStatus::Healthy);
    assert_eq!(nodes[5].status, NodeStatus::Unhealthy);
    assert_eq!(nodes[3].last_heartbeat, 168);
}

#[test]
fn reads_do_not_mark_stale_nodes() {
    let mut m = manager();
    m.add_node(node("old", NodeStatus::Healthy, 0)).unwrap();
    let _ = m.get_nodes();
    let _ = m.get_leader();
    let _ = m.is_leader();
    assert_eq!(ids(&m.get_healthy_nodes()), vec!["old"]);
    m.elect_leader().unwrap();
    assert_eq!(m.get_nodes()[1].status, NodeStatus::Healthy);
    m.check_node_health_at(1_000).unwrap();
    assert_eq!(m.get_nodes()[1].status, NodeStatus::Unhealthy);
}

#[test]
fn detector_reelects_when_leader_goes_stale() {
    let mut m = manager();
    m.add_node(node("a", NodeStatus::Healthy, 100)).unwrap();
    m.add_node(node("b", NodeStatus::Healthy, 190)).unwrap();
    m.elect_leader().unwrap();
    assert_eq!(m.get_leader().unwrap().id, "a");
    m.check_node_health_at(200).unwrap();
    assert_eq!(m.get_leader().unwrap().id, "b");
    assert_eq!(leaders(&m.get_nodes()), vec!["b".to_string()]);
    m.check_node_health_at(400).unwrap();
    assert!(m.get_leader().is_none());
    assert!(leaders(&m.get_nodes()).is_empty());
}

#[test]
fn detector_keeps_a_healthy_leader() {
    let mut m = manager();
    m.add_node(node("b", NodeStatus::Healthy, 190)).unwrap();
    m.add_node(node("a", NodeStatus::Unhealthy, 190)).unwrap();
    m.elect_leader().unwrap();
    m.update_node_status_at("a", NodeStatus::Healthy, 195).unwrap();
    m.check_node_health_at(200).unwrap();
    // No election ran, so the smaller identifier does not take over.
    assert_eq!(m.get_leader().unwrap().id, "b");
}

#[test]
fn unhealthy_node_heals_only_by_heartbeat() {
    let mut m = manager();
    m.add_node(node("n1", NodeStatus::Healthy, 0)).unwrap();
    m.check_node_health_at(100).unwrap();
    assert_eq!(m.get_nodes()[1].status, NodeStatus::Unhealthy);
    m.check_node_health_at(100).unwrap();
    assert_eq!(m.get_nodes()[1].status, NodeStatus::Unhealthy);
    m.update_node_status_at("n1", NodeStatus::Healthy, 100).unwrap();
    m.check_node_health_at(120).unwrap();
    assert_eq!(m.get_nodes()[1].status, NodeStatus::Healthy);
}

#[test]
fn check_node_health_uses_the_clock() {
    let mut m = manager();
    m.add_node(node("old", NodeStatus::Healthy, 1_000)).unwrap();
    assert_eq!(m.check_node_health(), Ok(()));
    assert_eq!(m.get_nodes()[1].status, NodeStatus::Unhealthy);
}

#[test]
fn node_clone_copies_every_field() {
    let mut n = node("n1", NodeStatus::Leaving, 77);
    n.is_leader = true;
    let c = n.clone();
    assert_eq!(c.id, "n1");
    assert_eq!(c.address, "10.0.0.1");
    assert_eq!(c.port, 7000);
    assert!(c.is_leader);
    assert_eq!(c.status, NodeStatus::Leaving);
    assert_eq!(c.last_heartbeat, 77);
}
