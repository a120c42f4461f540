//! Planning of a fan-out query and merging of what the shards answer.
//!
//! A query runs in three steps. The coordinator checks the query against the
//! collection and names the nodes to ask ([`QueryCoordinator::plan_query`]).
//! The caller asks them, each with the same result cap and threshold, and
//! gathers one reply per node. The coordinator merges the replies into one
//! ranked answer ([`QueryCoordinator::merge_results`]).
//!
//! Scores and vector components are held as integers. A score is a key that
//! orders as the score does; a vector component, a threshold or a scalar bound
//! is the bit pattern of the floating-point number.

use vstd::prelude::*;
use vstd::seq_lib::*;
use crate::cluster::{some_healthy, ClusterManager};
use crate::error::CoordinationError;
use crate::metadata::{has_name, record_named, CollectionMetadata, MetadataManager};
use crate::sharding::{owns_shard_of, string_views, ShardingStrategy};
use crate::text::{
    id_less, lemma_id_less_irreflexive, lemma_id_less_total, lemma_id_less_transitive, str_less,
    str_same,
};

verus! {

/// What a query asks for.
#[derive(Debug, Clone, Copy, PartialEq, Eq, Structural)]
pub enum QueryType {
    VectorSearch,
    ScalarRange,
    MetadataFilter,
}

/// The direction in which results are ranked.
#[derive(Debug, Clone, Copy, PartialEq, Eq, Structural)]
pub enum Ranking {
    /// The score is a similarity: the greatest score comes first.
    Descending,
    /// The score is a distance: the smallest score comes first.
    Ascending,
}

/// A query as a client states it.
#[derive(Debug)]
pub struct QueryParams {
    pub query_type: QueryType,
    /// The query vector, each component as the bit pattern of a single-precision
    /// number.
    pub vector: Option<Vec<u32>>,
    /// The lower scalar bound, as the bit pattern of a double-precision number.
    pub scalar_min: Option<u64>,
    /// The upper scalar bound, as the bit pattern of a double-precision number.
    pub scalar_max: Option<u64>,
    pub metadata_filter: Option<String>,
    /// The greatest number of results wanted.
    pub top_k: usize,
    /// The score threshold, as the bit pattern of a single-precision number.
    pub threshold: Option<u32>,
    /// The name of the collection to search.
    pub index_name: String,
}

/// One result: an identifier and the key of its score.
#[derive(Debug)]
pub struct SearchHit {
    pub id: String,
    pub score: i64,
}

/// The mathematical value of a [`SearchHit`].
pub struct HitView {
    pub id: Seq<char>,
    pub score: i64,
}

impl View for SearchHit {
    type V = HitView;

    open spec fn view(&self) -> HitView {
        HitView { id: self.id@, score: self.score }
    }
}

impl Clone for SearchHit {
    fn clone(&self) -> (copy: Self)
        ensures
            copy == *self,
    {
        SearchHit { id: self.id.clone(), score: self.score }
    }
}

/// The values of a sequence of hits, in order.
pub open spec fn hit_views(hits: Seq<SearchHit>) -> Seq<HitView> {
    hits.map_values(|h: SearchHit| h@)
}

/// What one node answered: its hits, or nothing if it failed or did not answer
/// in time.
#[derive(Debug)]
pub struct ShardReply {
    pub node_id: String,
    pub hits: Option<Vec<SearchHit>>,
}

/// The mathematical value of a [`ShardReply`].
pub struct ReplyView {
    pub node_id: Seq<char>,
    pub hits: Option<Seq<HitView>>,
}

impl View for ShardReply {
    type V = ReplyView;

    open spec fn view(&self) -> ReplyView {
        ReplyView {
            node_id: self.node_id@,
            hits: match self.hits {
                Some(hits) => Some(hit_views(hits@)),
                None => None,
            },
        }
    }
}

/// The values of a sequence of replies, in order.
pub open spec fn reply_views(replies: Seq<ShardReply>) -> Seq<ReplyView> {
    replies.map_values(|r: ShardReply| r@)
}

/// `a` ranks strictly before `b`: its score is better in the direction
/// `ranking`, or the scores are equal and its identifier is smaller.
pub open spec fn hit_before(a: HitView, b: HitView, ranking: Ranking) -> bool {
    if a.score != b.score {
        match ranking {
            Ranking::Descending => a.score > b.score,
            Ranking::Ascending => a.score < b.score,
        }
    } else {
        id_less(a.id, b.id)
    }
}

/// `hits` is in ranking order: no hit ranks strictly before an earlier one.
pub open spec fn is_ranked(hits: Seq<HitView>, ranking: Ranking) -> bool {
    forall|i: int, j: int| 0 <= i < j < hits.len() ==> !hit_before(hits[j], hits[i], ranking)
}

/// The hits of all replies that carry hits, reply after reply.
pub open spec fn gathered_hits(replies: Seq<ReplyView>) -> Seq<HitView>
    decreases replies.len(),
{
    if replies.len() == 0 {
        Seq::empty()
    } else {
        gathered_hits(replies.drop_last()) + match replies.last().hits {
            Some(hits) => hits,
            None => Seq::empty(),
        }
    }
}

/// The identifiers of the nodes whose replies carry no hits, in order.
pub open spec fn failed_nodes(replies: Seq<ReplyView>) -> Seq<Seq<char>>
    decreases replies.len(),
{
    if replies.len() == 0 {
        Seq::empty()
    } else if replies.last().hits is None {
        failed_nodes(replies.drop_last()).push(replies.last().node_id)
    } else {
        failed_nodes(replies.drop_last())
    }
}

/// Some reply carries hits.
pub open spec fn some_answered(replies: Seq<ReplyView>) -> bool {
    exists|i: int| 0 <= i < replies.len() && replies[i].hits is Some
}

/// `top` holds the `limit` best of `all` in ranking order, or all of them if
/// there are fewer.
pub open spec fn is_top_ranked(
    all: Seq<HitView>,
    top: Seq<HitView>,
    limit: usize,
    ranking: Ranking,
) -> bool {
    exists|order: Seq<HitView>|
        #![auto]
        order.to_multiset() == all.to_multiset() && is_ranked(order, ranking) && top == order.take(
            if limit <= order.len() {
                limit as int
            } else {
                order.len() as int
            },
        )
}

/// No hit ranks before itself.
pub proof fn lemma_hit_before_irreflexive(a: HitView, ranking: Ranking)
    ensures
        !hit_before(a, a, ranking),
{
    lemma_id_less_irreflexive(a.id);
}

/// Ranking is transitive.
pub proof fn lemma_hit_before_transitive(a: HitView, b: HitView, c: HitView, ranking: Ranking)
    requires
        hit_before(a, b, ranking),
        hit_before(b, c, ranking),
    ensures
        hit_before(a, c, ranking),
{
    if a.score == b.score && b.score == c.score {
        lemma_id_less_transitive(a.id, b.id, c.id);
    }
}

/// Two hits of which neither ranks before the other are the same hit.
pub proof fn lemma_hit_before_total(a: HitView, b: HitView, ranking: Ranking)
    requires
        !hit_before(a, b, ranking),
        !hit_before(b, a, ranking),
    ensures
        a == b,
{
    lemma_id_less_total(a.id, b.id);
}

/// A multiset of hits has one ranking order: two ranked sequences that hold the
/// same hits, each as often as the other, are the same sequence.
pub proof fn lemma_ranked_order_unique(first: Seq<HitView>, second: Seq<HitView>, ranking: Ranking)
    requires
        first.to_multiset() == second.to_multiset(),
        is_ranked(first, ranking),
        is_ranked(second, ranking),
    ensures
        first == second,
    decreases first.len(),
{
    to_multiset_len(first);
    to_multiset_len(second);
    if first.len() == 0 {
        assert(first =~= second);
    } else {
        let a = first[0];
        let b = second[0];
        to_multiset_contains(first, a);
        to_multiset_contains(second, a);
        to_multiset_contains(first, b);
        to_multiset_contains(second, b);
        assert(first.contains(a));
        assert(second.contains(b));
        let j = choose|j: int| 0 <= j < second.len() && second[j] == a;
        let i = choose|i: int| 0 <= i < first.len() && first[i] == b;
        if j > 0 {
            assert(!hit_before(second[j], second[0], ranking));
        } else {
            lemma_hit_before_irreflexive(a, ranking);
        }
        if i > 0 {
            assert(!hit_before(first[i], first[0], ranking));
        } else {
            lemma_hit_before_irreflexive(b, ranking);
        }
        lemma_hit_before_total(a, b, ranking);
        let first_rest = first.remove(0);
        let second_rest = second.remove(0);
        to_multiset_remove(first, 0);
        to_multiset_remove(second, 0);
        assert forall|x: int, y: int| 0 <= x < y < first_rest.len() implies !hit_before(
            first_rest[y],
            first_rest[x],
            ranking,
        ) by {
            assert(first_rest[x] == first[x + 1]);
            assert(first_rest[y] == first[y + 1]);
        }
        assert forall|x: int, y: int| 0 <= x < y < second_rest.len() implies !hit_before(
            second_rest[y],
            second_rest[x],
            ranking,
        ) by {
            assert(second_rest[x] == second[x + 1]);
            assert(second_rest[y] == second[y + 1]);
        }
        lemma_ranked_order_unique(first_rest, second_rest, ranking);
        assert forall|k: int| 0 <= k < first.len() implies first[k] == second[k] by {
            if k > 0 {
                assert(first[k] == first_rest[k - 1]);
                assert(second[k] == second_rest[k - 1]);
            }
        }
        assert(first =~= second);
    }
}

/// The best hits of a given sequence are determined: two answers to the same
/// hits, cap and ranking are the same.
pub proof fn lemma_top_ranked_unique(
    all: Seq<HitView>,
    first: Seq<HitView>,
    second: Seq<HitView>,
    limit: usize,
    ranking: Ranking,
)
    requires
        is_top_ranked(all, first, limit, ranking),
        is_top_ranked(all, second, limit, ranking),
    ensures
        first == second,
{
    let p = choose|order: Seq<HitView>|
        #![auto]
        order.to_multiset() == all.to_multiset() && is_ranked(order, ranking) && first
            == order.take(
            if limit <= order.len() {
                limit as int
            } else {
                order.len() as int
            },
        );
    let q = choose|order: Seq<HitView>|
        #![auto]
        order.to_multiset() == all.to_multiset() && is_ranked(order, ranking) && second
            == order.take(
            if limit <= order.len() {
                limit as int
            } else {
                order.len() as int
            },
        );
    lemma_ranked_order_unique(p, q, ranking);
}

/// An answer never holds more hits than the cap, nor more than there are; it
/// is in ranking order; each of its hits is one of the gathered hits; and every
/// gathered hit that it leaves out ranks no better than each hit that it holds.
pub proof fn lemma_top_ranked_is_bounded_and_ranked(
    all: Seq<HitView>,
    top: Seq<HitView>,
    limit: usize,
    ranking: Ranking,
)
    requires
        is_top_ranked(all, top, limit, ranking),
    ensures
        top.len() <= limit,
        top.len() <= all.len(),
        top.len() == limit || top.len() == all.len(),
        is_ranked(top, ranking),
        top.to_multiset().subset_of(all.to_multiset()),
        forall|i: int, hit: HitView|
            0 <= i < top.len() && all.to_multiset().count(hit) > top.to_multiset().count(hit)
                ==> !#[trigger] hit_before(hit, top[i], ranking),
{
    broadcast use vstd::multiset::group_multiset_axioms;

    let order = choose|order: Seq<HitView>|
        #![auto]
        order.to_multiset() == all.to_multiset() && is_ranked(order, ranking) && top == order.take(
            if limit <= order.len() {
                limit as int
            } else {
                order.len() as int
            },
        );
    let kept = top.len() as int;
    let rest = order.skip(kept);
    to_multiset_len(order);
    to_multiset_len(all);
    assert(order =~= top + rest);
    lemma_multiset_commutative(top, rest);
    assert(top.to_multiset().subset_of(all.to_multiset()));
    assert forall|i: int, j: int| 0 <= i < j < top.len() implies !hit_before(
        top[j],
        top[i],
        ranking,
    ) by {
        assert(top[i] == order[i]);
        assert(top[j] == order[j]);
    }
    assert forall|i: int, hit: HitView|
        0 <= i < top.len() && all.to_multiset().count(hit) > top.to_multiset().count(
            hit,
        ) implies !#[trigger] hit_before(hit, top[i], ranking) by {
        assert(rest.to_multiset().count(hit) > 0);
        to_multiset_contains(rest, hit);
        let k = choose|k: int| 0 <= k < rest.len() && rest[k] == hit;
        assert(order[kept + k] == hit);
        assert(order[i] == top[i]);
        assert(!hit_before(order[kept + k], order[i], ranking));
    }
}

/// Whether `a` ranks strictly before `b`.
pub fn ranks_before(a: &SearchHit, b: &SearchHit, ranking: Ranking) -> (before: bool)
    ensures
        before == hit_before(a@, b@, ranking),
{
    if a.score != b.score {
        match ranking {
            Ranking::Descending => a.score > b.score,
            Ranking::Ascending => a.score < b.score,
        }
    } else {
        str_less(a.id.as_str(), b.id.as_str())
    }
}

/// Puts `hit` into the ranked `ranked` at its place, after the hits that rank
/// the same.
fn insert_ranked(ranked: &mut Vec<SearchHit>, hit: SearchHit, ranking: Ranking)
    requires
        is_ranked(hit_views(old(ranked)@), ranking),
    ensures
        is_ranked(hit_views(final(ranked)@), ranking),
        hit_views(final(ranked)@).to_multiset() == hit_views(old(ranked)@).to_multiset().insert(
            hit@,
        ),
{
    let ghost before = hit_views(ranked@);
    let mut at: usize = 0;
    while at < ranked.len() && !ranks_before(&hit, &ranked[at], ranking)
        invariant
            at <= ranked.len(),
            *ranked == *old(ranked),
            before == hit_views(ranked@),
            forall|j: int| 0 <= j < at ==> !hit_before(hit@, #[trigger] before[j], ranking),
        decreases ranked.len() - at,
    {
        assert(before[at as int] == ranked[at as int]@);
        at += 1;
    }
    proof {
        if at < ranked.len() {
            assert(before[at as int] == ranked[at as int]@);
        }
    }
    ranked.insert(at, hit);
    proof {
        let after = hit_views(ranked@);
        assert(after =~= before.insert(at as int, hit@));
        to_multiset_insert(before, at as int, hit@);
        assert forall|i: int, j: int| 0 <= i < j < after.len() implies !hit_before(
            after[j],
            after[i],
            ranking,
        ) by {
            if j == at {
                assert(after[i] == before[i]);
            } else if i == at {
                let later = before[j - 1];
                assert(after[j] == later);
                assert(hit_before(hit@, before[at as int], ranking));
                if hit_before(later, hit@, ranking) {
                    lemma_hit_before_transitive(later, hit@, before[at as int], ranking);
                    if j - 1 == at {
                        lemma_hit_before_irreflexive(later, ranking);
                    } else {
                        assert(!hit_before(before[j - 1], before[at as int], ranking));
                    }
                }
            } else {
                let i0 = if i < at { i } else { i - 1 };
                let j0 = if j < at { j } else { j - 1 };
                assert(after[i] == before[i0]);
                assert(after[j] == before[j0]);
                assert(!hit_before(before[j0], before[i0], ranking));
            }
        }
    }
}

/// What the coordinator has decided for a query: the nodes to ask, and what
/// each of them is asked with.
#[derive(Debug)]
pub struct QueryPlan {
    /// The identifiers of the nodes to ask, each named once.
    pub targets: Vec<String>,
    pub top_k: usize,
    pub threshold: Option<u32>,
    pub ranking: Ranking,
}

/// The answer to a query.
#[derive(Debug)]
pub struct QueryResult {
    /// The best hits, best first.
    pub hits: Vec<SearchHit>,
    /// Whether some node failed, so that `hits` rests on the others alone.
    pub partial: bool,
    /// The identifiers of the nodes that failed.
    pub failed_shards: Vec<String>,
}

/// The ranking that the metric `metric` implies. The distance metrics
/// `euclidean`, `l2`, `manhattan`, `l1` and `hamming` rank the smallest score
/// first; every other metric is a similarity and ranks the greatest first.
pub open spec fn metric_ranking(metric: Seq<char>) -> Ranking {
    if metric == "euclidean"@ || metric == "l2"@ || metric == "manhattan"@ || metric == "l1"@
        || metric == "hamming"@ {
        Ranking::Ascending
    } else {
        Ranking::Descending
    }
}

/// What is wrong with `params` for a collection of dimension `dimension`, if
/// anything: a result cap of zero, a vector search without a vector, or a
/// vector of another length than the dimension.
pub open spec fn query_fault(params: &QueryParams, dimension: usize) -> Option<CoordinationError> {
    if params.top_k == 0 {
        Some(CoordinationError::InvalidQuery)
    } else if params.query_type == QueryType::VectorSearch {
        match params.vector {
            None => Some(CoordinationError::InvalidQuery),
            Some(vector) => if vector.len() != dimension {
                Some(CoordinationError::DimensionMismatch)
            } else {
                None
            },
        }
    } else {
        None
    }
}

/// The ranking that the metric `metric` implies.
pub fn ranking_for_metric(metric: &str) -> (ranking: Ranking)
    ensures
        ranking == metric_ranking(metric@),
{
    if str_same(metric, "euclidean") || str_same(metric, "l2") || str_same(metric, "manhattan")
        || str_same(metric, "l1") || str_same(metric, "hamming") {
        Ranking::Ascending
    } else {
        Ranking::Descending
    }
}

/// Checks `params` against the collection `meta`.
pub fn validate_query(params: &QueryParams, meta: &CollectionMetadata) -> (res: Result<
    (),
    CoordinationError,
>)
    ensures
        res == match query_fault(params, meta.dimension) {
            Some(fault) => Err::<(), CoordinationError>(fault),
            None => Ok::<(), CoordinationError>(()),
        },
{
    if params.top_k == 0 {
        return Err(CoordinationError::InvalidQuery);
    }
    match params.query_type {
        QueryType::VectorSearch => match &params.vector {
            None => Err(CoordinationError::InvalidQuery),
            Some(vector) => {
                if vector.len() != meta.dimension {
                    Err(CoordinationError::DimensionMismatch)
                } else {
                    Ok(())
                }
            },
        },
        _ => Ok(()),
    }
}

/// Gathering over one reply more adds the hits of that reply.
proof fn lemma_gathered_step(replies: Seq<ReplyView>, i: int)
    requires
        0 <= i < replies.len(),
    ensures
        gathered_hits(replies.take(i + 1)) == gathered_hits(replies.take(i)) + match replies[i].hits {
            Some(hits) => hits,
            None => Seq::empty(),
        },
        failed_nodes(replies.take(i + 1)) == if replies[i].hits is None {
            failed_nodes(replies.take(i)).push(replies[i].node_id)
        } else {
            failed_nodes(replies.take(i))
        },
{
    assert(replies.take(i + 1).drop_last() =~= replies.take(i));
    assert(replies.take(i + 1).last() == replies[i]);
}

/// Merges what the nodes answered into one ranked answer of at most `top_k`
/// hits. Fails with `AllShardsFailed` if no reply carries hits. Where some
/// replies carry none, the answer rests on the others and is flagged as
/// partial.
pub fn merge_results(replies: &Vec<ShardReply>, top_k: usize, ranking: Ranking) -> (res: Result<
    QueryResult,
    CoordinationError,
>)
    ensures
        !some_answered(reply_views(replies@)) ==> res == Err::<QueryResult, CoordinationError>(
            CoordinationError::AllShardsFailed,
        ),
        some_answered(reply_views(replies@)) ==> res is Ok && is_top_ranked(
            gathered_hits(reply_views(replies@)),
            hit_views(res->Ok_0.hits@),
            top_k,
            ranking,
        ) && string_views(res->Ok_0.failed_shards@) == failed_nodes(reply_views(replies@))
            && res->Ok_0.partial == (res->Ok_0.failed_shards.len() > 0),
        res is Ok ==> res->Ok_0.hits.len() <= top_k && is_ranked(
            hit_views(res->Ok_0.hits@),
            ranking,
        ),
{
    let ghost views = reply_views(replies@);
    let mut ranked: Vec<SearchHit> = Vec::new();
    let mut failed: Vec<String> = Vec::new();
    let mut answered: bool = false;
    let mut i: usize = 0;
    proof {
        assert(views.take(0) =~= Seq::<ReplyView>::empty());
        assert(hit_views(ranked@) =~= Seq::<HitView>::empty());
        assert(string_views(failed@) =~= Seq::<Seq<char>>::empty());
    }
    while i < replies.len()
        invariant
            i <= replies.len(),
            views == reply_views(replies@),
            is_ranked(hit_views(ranked@), ranking),
            hit_views(ranked@).to_multiset() == gathered_hits(views.take(i as int)).to_multiset(),
            string_views(failed@) == failed_nodes(views.take(i as int)),
            answered == some_answered(views.take(i as int)),
        decreases replies.len() - i,
    {
        let ghost so_far = gathered_hits(views.take(i as int));
        proof {
            lemma_gathered_step(views, i as int);
            assert(views[i as int] == replies[i as int]@);
        }
        match &replies[i].hits {
            Some(hits) => {
                let ghost incoming = hit_views(hits@);
                let mut j: usize = 0;
                assert(so_far + incoming.take(0) =~= so_far);
                while j < hits.len()
                    invariant
                        j <= hits.len(),
                        incoming == hit_views(hits@),
                        is_ranked(hit_views(ranked@), ranking),
                        hit_views(ranked@).to_multiset() == (so_far + incoming.take(
                            j as int,
                        )).to_multiset(),
                    decreases hits.len() - j,
                {
                    insert_ranked(&mut ranked, hits[j].clone(), ranking);
                    proof {
                        assert(incoming[j as int] == hits[j as int]@);
                        assert(so_far + incoming.take(j + 1) =~= (so_far + incoming.take(
                            j as int,
                        )).push(incoming[j as int]));
                        to_multiset_build(so_far + incoming.take(j as int), incoming[j as int]);
                    }
                    j += 1;
                }
                proof {
                    assert(incoming.take(j as int) =~= incoming);
                    assert(some_answered(views.take(i + 1))) by {
                        assert(views.take(i + 1)[i as int].hits is Some);
                    }
                }
                answered = true;
            },
            None => {
                let ghost before = string_views(failed@);
                failed.push(replies[i].node_id.clone());
                proof {
                    assert(string_views(failed@) =~= before.push(views[i as int].node_id));
                    assert(so_far + Seq::<HitView>::empty() =~= so_far);
                    let shorter = views.take(i as int);
                    let longer = views.take(i + 1);
                    if some_answered(longer) {
                        let k = choose|k: int| 0 <= k < longer.len() && longer[k].hits is Some;
                        assert(shorter[k].hits is Some);
                    }
                    if some_answered(shorter) {
                        let k = choose|k: int| 0 <= k < shorter.len() && shorter[k].hits is Some;
                        assert(longer[k].hits is Some);
                    }
                }
            },
        }
        i += 1;
    }
    proof {
        assert(views.take(i as int) =~= views);
    }
    if !answered {
        return Err(CoordinationError::AllShardsFailed);
    }
    let ghost order = hit_views(ranked@);
    ranked.truncate(top_k);
    proof {
        let kept = if top_k <= order.len() {
            top_k as int
        } else {
            order.len() as int
        };
        assert(hit_views(ranked@) =~= order.take(kept));
        lemma_top_ranked_is_bounded_and_ranked(
            gathered_hits(views),
            hit_views(ranked@),
            top_k,
            ranking,
        );
    }
    let partial = failed.len() > 0;
    Ok(QueryResult { hits: ranked, partial: partial, failed_shards: failed })
}

/// Plans queries and merges their partial results.
#[derive(Debug)]
pub struct QueryCoordinator {
    strategy: ShardingStrategy,
}

impl QueryCoordinator {
    /// The sharding strategy that the coordinator routes with.
    pub closed spec fn strategy(&self) -> ShardingStrategy {
        self.strategy
    }

    /// The invariant of the coordinator: its strategy is well formed.
    pub open spec fn wf(&self) -> bool {
        self.strategy().wf()
    }

    /// A coordinator that routes with `strategy`.
    pub fn with_strategy(strategy: ShardingStrategy) -> (coordinator: Self)
        requires
            strategy.wf(),
        ensures
            coordinator.wf(),
            coordinator.strategy() == strategy,
    {
        QueryCoordinator { strategy: strategy }
    }

    /// A coordinator that routes over the default ring.
    pub fn new() -> (coordinator: Self)
        ensures
            coordinator.wf(),
            coordinator.strategy().slots() == crate::sharding::DEFAULT_RING_SLOTS,
    {
        QueryCoordinator { strategy: ShardingStrategy::new() }
    }

    /// Checks the query `params` and names the nodes to ask. Fails, before any
    /// node is asked, with `NotFound` if the collection is not registered; else
    /// with `InvalidQuery` or `DimensionMismatch` if the query does not fit the
    /// collection; else with `NoHealthyNodes` if no node is healthy.
    pub fn plan_query(
        &self,
        params: &QueryParams,
        metadata: &MetadataManager,
        cluster: &ClusterManager,
    ) -> (res: Result<QueryPlan, CoordinationError>)
        requires
            self.wf(),
        ensures
            res == Err::<QueryPlan, CoordinationError>(CoordinationError::NotFound) <==> !has_name(
                metadata@,
                params.index_name@,
            ),
            has_name(metadata@, params.index_name@) ==> {
                let meta = record_named(metadata@, params.index_name@);
                match query_fault(params, meta.dimension) {
                    Some(fault) => res == Err::<QueryPlan, CoordinationError>(fault),
                    None => if !some_healthy(cluster@.nodes) {
                        res == Err::<QueryPlan, CoordinationError>(
                            CoordinationError::NoHealthyNodes,
                        )
                    } else {
                        &&& res is Ok
                        &&& res->Ok_0.top_k == params.top_k
                        &&& res->Ok_0.threshold == params.threshold
                        &&& res->Ok_0.ranking == metric_ranking(meta.metric)
                        &&& string_views(res->Ok_0.targets@).no_duplicates()
                        &&& forall|id: Seq<char>|
                            string_views(res->Ok_0.targets@).contains(id) <==> owns_shard_of(
                                cluster@.nodes,
                                meta.name,
                                meta.shard_count as int,
                                self.strategy().slots(),
                                id,
                            )
                    },
                }
            },
    {
        let meta = match metadata.get_collection(params.index_name.as_str()) {
            Ok(meta) => meta,
            Err(e) => {
                return Err(e);
            },
        };
        match validate_query(params, &meta) {
            Ok(()) => {},
            Err(e) => {
                return Err(e);
            },
        }
        let nodes = cluster.get_nodes();
        let targets = match self.strategy.get_shards_for_collection(&meta, &nodes) {
            Ok(targets) => targets,
            Err(e) => {
                return Err(e);
            },
        };
        Ok(
            QueryPlan {
                targets: targets,
                top_k: params.top_k,
                threshold: params.threshold,
                ranking: ranking_for_metric(meta.metric.as_str()),
            },
        )
    }

    /// Merges the replies to the query planned as `plan` into one ranked
    /// answer of at most `plan.top_k` hits. Fails with `AllShardsFailed` if no
    /// reply carries hits.
    pub fn merge_results(&self, plan: &QueryPlan, replies: &Vec<ShardReply>) -> (res: Result<
        QueryResult,
        CoordinationError,
    >)
        ensures
            !some_answered(reply_views(replies@)) ==> res == Err::<QueryResult, CoordinationError>(
                CoordinationError::AllShardsFailed,
            ),
            some_answered(reply_views(replies@)) ==> res is Ok && is_top_ranked(
                gathered_hits(reply_views(replies@)),
                hit_views(res->Ok_0.hits@),
                plan.top_k,
                plan.ranking,
            ) && string_views(res->Ok_0.failed_shards@) == failed_nodes(reply_views(replies@))
                && res->Ok_0.partial == (res->Ok_0.failed_shards.len() > 0),
            res is Ok ==> res->Ok_0.hits.len() <= plan.top_k && is_ranked(
                hit_views(res->Ok_0.hits@),
                plan.ranking,
            ),
    {
        merge_results(replies, plan.top_k, plan.ranking)
    }
}

} // verus!
