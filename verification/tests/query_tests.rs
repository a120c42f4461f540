use cortexdb::cluster::{ClusterManager, NodeInfo, NodeStatus};
use cortexdb::error::CoordinationError;
use cortexdb::metadata::{CollectionMetadata, MetadataManager};
use cortexdb::query::{
    merge_results, ranking_for_metric, ranks_before, validate_query, QueryCoordinator,
    QueryParams, QueryType, Ranking, SearchHit, ShardReply,
};

fn hit(id: &str, score: i64) -> SearchHit {
    SearchHit { id: id.to_string(), score }
}

fn answered(node: &str, hits: Vec<SearchHit>) -> ShardReply {
    ShardReply { node_id: node.to_string(), hits: Some(hits) }
}

fn failed(node: &str) -> ShardReply {
    ShardReply { node_id: node.to_string(), hits: None }
}

fn pairs(hits: &[SearchHit]) -> Vec<(String, i64)> {
    hits.iter().map(|h| (h.id.clone(), h.score)).collect()
}

fn pair(id: &str, score: i64) -> (String, i64) {
    (id.to_string(), score)
}

fn collection(name: &str, dimension: usize, metric: &str, shard_count: usize) -> CollectionMetadata {
    CollectionMetadata {
        name: name.to_string(),
        dimension,
        metric: metric.to_string(),
        index_type: "hnsw".to_string(),
        shard_count,
        replica_count: 2,
        created_at: 0,
        updated_at: 0,
    }
}

fn vector_query(index: &str, len: usize, top_k: usize) -> QueryParams {
    QueryParams {
        query_type: QueryType::VectorSearch,
        vector: Some(vec![1.0f32.to_bits(); len]),
        scalar_min: None,
        scalar_max: None,
        metadata_filter: None,
        top_k,
        threshold: Some(0.5f32.to_bits()),
        index_name: index.to_string(),
    }
}

fn cluster(healthy: &[&str]) -> ClusterManager {
    let mut c = ClusterManager::for_node("self".to_string(), "localhost".to_string(), 8080, 0);
    for id in healthy {
        c.add_node(NodeInfo {
            id: id.to_string(),
            address: "h".to_string(),
            port: 1,
            is_leader: false,
            status: NodeStatus::Healthy,
            last_heartbeat: 0,
        })
        .unwrap();
    }
    c
}

#[test]
fn ranking_follows_the_metric() {
    assert_eq!(ranking_for_metric("cosine"), Ranking::Descending);
    assert_eq!(ranking_for_metric("dot"), Ranking::Descending);
    assert_eq!(ranking_for_metric(""), Ranking::Descending);
    assert_eq!(ranking_for_metric("euclidean"), Ranking::Ascending);
    assert_eq!(ranking_for_metric("l2"), Ranking::Ascending);
    assert_eq!(ranking_for_metric("manhattan"), Ranking::Ascending);
    assert_eq!(ranking_for_metric("l1"), Ranking::Ascending);
    assert_eq!(ranking_for_metric("hamming"), Ranking::Ascending);
    assert_eq!(ranking_for_metric("Euclidean"), Ranking::Descending);
}

#[test]
fn ranks_before_orders_by_score_then_id() {
    assert!(ranks_before(&hit("b", 9), &hit("a", 1), Ranking::Descending));
    assert!(!ranks_before(&hit("a", 1), &hit("b", 9), Ranking::Descending));
    assert!(ranks_before(&hit("a", 1), &hit("b", 9), Ranking::Ascending));
    assert!(!ranks_before(&hit("b", 9), &hit("a", 1), Ranking::Ascending));
    assert!(ranks_before(&hit("a", 5), &hit("b", 5), Ranking::Descending));
    assert!(ranks_before(&hit("a", 5), &hit("b", 5), Ranking::Ascending));
    assert!(!ranks_before(&hit("b", 5), &hit("a", 5), Ranking::Ascending));
    assert!(!ranks_before(&hit("a", 5), &hit("a", 5), Ranking::Descending));
    assert!(ranks_before(&hit("a", i64::MAX), &hit("a", i64::MIN), Ranking::Descending));
}

#[test]
fn validation_checks_cap_then_vector_then_dimension() {
    let meta = collection("docs", 128, "cosine", 4);
    assert_eq!(validate_query(&vector_query("docs", 128, 10), &meta), Ok(()));
    assert_eq!(
        validate_query(&vector_query("docs", 64, 10), &meta),
        Err(CoordinationError::DimensionMismatch)
    );
    assert_eq!(
        validate_query(&vector_query("docs", 0, 10), &meta),
        Err(CoordinationError::DimensionMismatch)
    );
    assert_eq!(
        validate_query(&vector_query("docs", 64, 0), &meta),
        Err(CoordinationError::InvalidQuery)
    );
    let mut no_vector = vector_query("docs", 128, 10);
    no_vector.vector = None;
    assert_eq!(validate_query(&no_vector, &meta), Err(CoordinationError::InvalidQuery));
}

#[test]
fn validation_asks_no_vector_of_other_queries() {
    let meta = collection("docs", 128, "cosine", 4);
    for query_type in [QueryType::ScalarRange, QueryType::MetadataFilter] {
        let mut q = vector_query("docs", 64, 10);
        q.query_type = query_type;
        assert_eq!(validate_query(&q, &meta), Ok(()));
        q.vector = None;
        assert_eq!(validate_query(&q, &meta), Ok(()));
        q.top_k = 0;
        assert_eq!(validate_query(&q, &meta), Err(CoordinationError::InvalidQuery));
    }
}

#[test]
fn plan_fails_on_dimension_mismatch_before_dispatch() {
    let mut metadata = MetadataManager::new();
    metadata.add_collection(collection("docs", 128, "cosine", 4)).unwrap();
    let coordinator = QueryCoordinator::new();
    let res = coordinator.plan_query(&vector_query("docs", 64, 10), &metadata, &cluster(&["n1"]));
    assert_eq!(res.unwrap_err(), CoordinationError::DimensionMismatch);
    // The mismatch is reported even where nobody could be asked.
    let res = coordinator.plan_query(&vector_query("docs", 64, 10), &metadata, &cluster(&[]));
    assert_eq!(res.unwrap_err(), CoordinationError::DimensionMismatch);
}

#[test]
fn plan_fails_for_unknown_collection() {
    let metadata = MetadataManager::new();
    let coordinator = QueryCoordinator::new();
    let res = coordinator.plan_query(&vector_query("docs", 64, 0), &metadata, &cluster(&["n1"]));
    assert_eq!(res.unwrap_err(), CoordinationError::NotFound);
}

#[test]
fn plan_fails_without_healthy_nodes() {
    let mut metadata = MetadataManager::new();
    metadata.add_collection(collection("docs", 128, "cosine", 4)).unwrap();
    let coordinator = QueryCoordinator::new();
    let res = coordinator.plan_query(&vector_query("docs", 128, 10), &metadata, &cluster(&[]));
    assert_eq!(res.unwrap_err(), CoordinationError::NoHealthyNodes);
}

#[test]
fn plan_names_targets_and_carries_cap_and_threshold() {
    let mut metadata = MetadataManager::new();
    metadata.add_collection(collection("docs", 128, "cosine", 8)).unwrap();
    metadata.add_collection(collection("far", 2, "euclidean", 1)).unwrap();
    let coordinator = QueryCoordinator::new();
    let nodes = cluster(&["n1", "n2", "n3"]);
    let plan = coordinator.plan_query(&vector_query("docs", 128, 10), &metadata, &nodes).unwrap();
    assert_eq!(plan.targets, vec!["n1", "n3", "n2"]);
    assert_eq!(plan.top_k, 10);
    assert_eq!(plan.threshold, Some(0.5f32.to_bits()));
    assert_eq!(plan.ranking, Ranking::Descending);
    let plan = coordinator.plan_query(&vector_query("far", 2, 3), &metadata, &nodes).unwrap();
    assert_eq!(plan.ranking, Ranking::Ascending);
    assert_eq!(plan.targets.len(), 1);
    assert_eq!(plan.top_k, 3);
}

#[test]
fn merge_ranks_similarities_descending() {
    let replies = vec![
        answered("n1", vec![hit("a", 90), hit("b", 70), hit("c", 10)]),
        answered("n2", vec![hit("d", 80), hit("e", 70)]),
        answered("n3", vec![]),
    ];
    let res = merge_results(&replies, 4, Ranking::Descending).unwrap();
    assert_eq!(pairs(&res.hits), vec![pair("a", 90), pair("d", 80), pair("b", 70), pair("e", 70)]);
    assert!(!res.partial);
    assert!(res.failed_shards.is_empty());
}

#[test]
fn merge_ranks_distances_ascending() {
    let replies = vec![
        answered("n1", vec![hit("a", 90), hit("b", 70), hit("c", 10)]),
        answered("n2", vec![hit("d", 80), hit("e", 70)]),
    ];
    let res = merge_results(&replies, 3, Ranking::Ascending).unwrap();
    assert_eq!(pairs(&res.hits), vec![pair("c", 10), pair("b", 70), pair("e", 70)]);
}

#[test]
fn merge_breaks_ties_by_ascending_id() {
    let replies = vec![
        answered("n1", vec![hit("z", 5), hit("m", 5)]),
        answered("n2", vec![hit("a", 5), hit("m", 5), hit("b", 5)]),
    ];
    let down = merge_results(&replies, 10, Ranking::Descending).unwrap();
    assert_eq!(
        pairs(&down.hits),
        vec![pair("a", 5), pair("b", 5), pair("m", 5), pair("m", 5), pair("z", 5)]
    );
    let up = merge_results(&replies, 10, Ranking::Ascending).unwrap();
    assert_eq!(pairs(&up.hits), pairs(&down.hits));
}

#[test]
fn merge_never_returns_more_than_top_k() {
    let replies = vec![
        answered("n1", vec![hit("a", 1), hit("b", 2), hit("c", 3)]),
        answered("n2", vec![hit("d", 4), hit("e", 5)]),
    ];
    for k in 0..8 {
        let res = merge_results(&replies, k, Ranking::Descending).unwrap();
        assert_eq!(res.hits.len(), k.min(5));
        let scores: Vec<i64> = res.hits.iter().map(|h| h.score).collect();
        let mut sorted = scores.clone();
        sorted.sort_by(|a, b| b.cmp(a));
        assert_eq!(scores, sorted);
        if k >= 1 {
            assert_eq!(res.hits[0].id, "e");
        }
    }
    let all = merge_results(&replies, usize::MAX, Ranking::Ascending).unwrap();
    assert_eq!(
        pairs(&all.hits),
        vec![pair("a", 1), pair("b", 2), pair("c", 3), pair("d", 4), pair("e", 5)]
    );
}

#[test]
fn merge_with_one_failed_shard_is_partial() {
    let replies = vec![
        answered("n1", vec![hit("a", 9), hit("b", 3)]),
        failed("n2"),
        answered("n3", vec![hit("c", 5)]),
    ];
    let res = merge_results(&replies, 10, Ranking::Descending).unwrap();
    assert_eq!(pairs(&res.hits), vec![pair("a", 9), pair("c", 5), pair("b", 3)]);
    assert!(res.partial);
    assert_eq!(res.failed_shards, vec!["n2"]);
}

#[test]
fn merge_fails_when_all_shards_failed() {
    let replies = vec![failed("n1"), failed("n2")];
    assert_eq!(
        merge_results(&replies, 10, Ranking::Descending).unwrap_err(),
        CoordinationError::AllShardsFailed
    );
    assert_eq!(
        merge_results(&vec![], 10, Ranking::Descending).unwrap_err(),
        CoordinationError::AllShardsFailed
    );
}

#[test]
fn merge_of_empty_answers_is_an_empty_answer() {
    let replies = vec![answered("n1", vec![]), failed("n2"), failed("n3")];
    let res = merge_results(&replies, 10, Ranking::Descending).unwrap();
    assert!(res.hits.is_empty());
    assert!(res.partial);
    assert_eq!(res.failed_shards, vec!["n2", "n3"]);
}

#[test]
fn coordinator_merges_by_the_plan() {
    let mut metadata = MetadataManager::new();
    metadata.add_collection(collection("far", 2, "l2", 8)).unwrap();
    let coordinator = QueryCoordinator::new();
    let plan = coordinator
        .plan_query(&vector_query("far", 2, 2), &metadata, &cluster(&["n1", "n2", "n3"]))
        .unwrap();
    assert_eq!(plan.targets.len(), 3);
    let replies = vec![
        answered(&plan.targets[0], vec![hit("a", 30), hit("b", 10)]),
        failed(&plan.targets[1]),
        answered(&plan.targets[2], vec![hit("c", 20)]),
    ];
    let res = coordinator.merge_results(&plan, &replies).unwrap();
    assert_eq!(pairs(&res.hits), vec![pair("b", 10), pair("c", 20)]);
    assert!(res.partial);
    assert_eq!(res.failed_shards, vec![plan.targets[1].clone()]);
}

#[test]
fn hit_clone_copies_every_field() {
    let h = hit("a", -3);
    let c = h.clone();
    assert_eq!(c.id, "a");
    assert_eq!(c.score, -3);
}

#[test]
fn coordinator_routes_with_the_given_strategy() {
    let mut metadata = MetadataManager::new();
    metadata.add_collection(collection("docs", 128, "cosine", usize::MAX)).unwrap();
    let nodes = cluster(&["n1", "n2", "n3"]);
    let narrow = QueryCoordinator::with_strategy(
        cortexdb::sharding::ShardingStrategy::with_ring_slots(3).unwrap(),
    );
    let plan = narrow.plan_query(&vector_query("docs", 128, 1), &metadata, &nodes).unwrap();
    assert_eq!(plan.targets, vec!["n1", "n2"]);
    let wide = QueryCoordinator::new();
    let plan = wide.plan_query(&vector_query("docs", 128, 1), &metadata, &nodes).unwrap();
    let mut targets = plan.targets.clone();
    targets.sort();
    assert_eq!(targets, vec!["n1", "n2", "n3"]);
}
