//! Samples of what the nodes of a cluster do, and the totals over them.
//!
//! Usages and latencies are fractions. They are held as the bit patterns of
//! double-precision numbers and only carried through: the caller measures
//! them and computes their averages.

use vstd::prelude::*;
use crate::cluster::{healthy_nodes, ClusterManager};
use crate::system::{now_seconds, random_below};
use crate::text::str_same;

verus! {

/// The bound below which the byte counters and vector counts of a simulated
/// sample are drawn.
pub const SIMULATED_COUNTER_BOUND: u64 = 1_000_000;

/// The bound below which the query count of a simulated sample is drawn.
pub const SIMULATED_QUERY_BOUND: u64 = 1_000;

/// One sample of what a node does.
#[derive(Debug)]
pub struct NodeMetrics {
    pub node_id: String,
    pub cpu_usage: u64,
    pub memory_usage: u64,
    pub disk_usage: u64,
    pub network_in: u64,
    pub network_out: u64,
    pub query_count: u64,
    pub query_latency: u64,
    pub vector_count: u64,
    pub timestamp: u64,
}

/// The mathematical value of a [`NodeMetrics`].
pub struct NodeMetricsView {
    pub node_id: Seq<char>,
    pub cpu_usage: u64,
    pub memory_usage: u64,
    pub disk_usage: u64,
    pub network_in: u64,
    pub network_out: u64,
    pub query_count: u64,
    pub query_latency: u64,
    pub vector_count: u64,
    pub timestamp: u64,
}

impl View for NodeMetrics {
    type V = NodeMetricsView;

    open spec fn view(&self) -> NodeMetricsView {
        NodeMetricsView {
            node_id: self.node_id@,
            cpu_usage: self.cpu_usage,
            memory_usage: self.memory_usage,
            disk_usage: self.disk_usage,
            network_in: self.network_in,
            network_out: self.network_out,
            query_count: self.query_count,
            query_latency: self.query_latency,
            vector_count: self.vector_count,
            timestamp: self.timestamp,
        }
    }
}

impl Clone for NodeMetrics {
    fn clone(&self) -> (copy: Self)
        ensures
            copy == *self,
    {
        NodeMetrics {
            node_id: self.node_id.clone(),
            cpu_usage: self.cpu_usage,
            memory_usage: self.memory_usage,
            disk_usage: self.disk_usage,
            network_in: self.network_in,
            network_out: self.network_out,
            query_count: self.query_count,
            query_latency: self.query_latency,
            vector_count: self.vector_count,
            timestamp: self.timestamp,
        }
    }
}

/// The values of a sequence of samples, in order.
pub open spec fn sample_views(samples: Seq<NodeMetrics>) -> Seq<NodeMetricsView> {
    samples.map_values(|m: NodeMetrics| m@)
}

/// The totals over a cluster at one time.
#[derive(Debug, Clone, Copy, PartialEq, Eq, Structural)]
pub struct ClusterMetrics {
    pub total_nodes: usize,
    pub healthy_nodes: usize,
    pub total_vectors: u64,
    pub total_queries: u64,
    pub average_query_latency: u64,
    pub timestamp: u64,
}

/// The sum of the query counts of `samples`.
pub open spec fn total_queries(samples: Seq<NodeMetricsView>) -> nat
    decreases samples.len(),
{
    if samples.len() == 0 {
        0
    } else {
        total_queries(samples.drop_last()) + samples.last().query_count as nat
    }
}

/// The sum of the vector counts of `samples`.
pub open spec fn total_vectors(samples: Seq<NodeMetricsView>) -> nat
    decreases samples.len(),
{
    if samples.len() == 0 {
        0
    } else {
        total_vectors(samples.drop_last()) + samples.last().vector_count as nat
    }
}

/// `at` is the position of the latest sample of the node `id` in `samples`.
pub open spec fn is_latest_sample_of(samples: Seq<NodeMetricsView>, id: Seq<char>, at: int) -> bool {
    &&& 0 <= at < samples.len()
    &&& samples[at].node_id == id
    &&& forall|j: int| at < j < samples.len() ==> (#[trigger] samples[j]).node_id != id
}

/// Gathers samples of the nodes of a cluster and the totals over them.
#[derive(Debug)]
pub struct MetricsCollector {
    node_metrics: Vec<NodeMetrics>,
    cluster_metrics: Option<ClusterMetrics>,
    collection_interval_secs: u64,
}

/// The mathematical value of a [`MetricsCollector`].
pub struct MetricsView {
    pub samples: Seq<NodeMetricsView>,
    pub cluster: Option<ClusterMetrics>,
    pub collection_interval_secs: u64,
}

impl View for MetricsCollector {
    type V = MetricsView;

    closed spec fn view(&self) -> MetricsView {
        MetricsView {
            samples: sample_views(self.node_metrics@),
            cluster: self.cluster_metrics,
            collection_interval_secs: self.collection_interval_secs,
        }
    }
}

impl MetricsCollector {
    /// A collector without samples or totals that collects every 10 seconds.
    pub fn new() -> (collector: Self)
        ensures
            collector@.samples == Seq::<NodeMetricsView>::empty(),
            collector@.cluster is None,
            collector@.collection_interval_secs == 10,
    {
        let collector = MetricsCollector {
            node_metrics: Vec::new(),
            cluster_metrics: None,
            collection_interval_secs: 10,
        };
        assert(collector@.samples =~= Seq::<NodeMetricsView>::empty());
        collector
    }

    /// The same collector, collecting every `interval_secs` seconds.
    pub fn with_interval(self, interval_secs: u64) -> (collector: Self)
        ensures
            collector@ == (MetricsView { collection_interval_secs: interval_secs, ..self@ }),
    {
        let mut collector = self;
        collector.collection_interval_secs = interval_secs;
        collector
    }

    /// The number of seconds between two collections.
    pub fn collection_interval_secs(&self) -> (secs: u64)
        ensures
            secs == self@.collection_interval_secs,
    {
        self.collection_interval_secs
    }

    /// Adds `sample` to the samples and returns a copy of it.
    pub fn record_node_metrics(&mut self, sample: NodeMetrics) -> (recorded: NodeMetrics)
        ensures
            recorded == sample,
            final(self)@ == (MetricsView {
                samples: old(self)@.samples.push(sample@),
                ..old(self)@
            }),
    {
        let recorded = sample.clone();
        self.node_metrics.push(sample);
        assert(self@.samples =~= old(self)@.samples.push(sample@));
        recorded
    }

    /// Takes a simulated sample of the node `node_id` now and adds it to the
    /// samples. The usages and the latency are those that the caller measured;
    /// the counters are drawn at random below `SIMULATED_COUNTER_BOUND`, the
    /// query count below `SIMULATED_QUERY_BOUND`.
    pub fn collect_node_metrics(
        &mut self,
        node_id: &str,
        cpu_usage: u64,
        memory_usage: u64,
        disk_usage: u64,
        query_latency: u64,
    ) -> (sample: NodeMetrics)
        ensures
            sample.node_id@ == node_id@,
            sample.cpu_usage == cpu_usage,
            sample.memory_usage == memory_usage,
            sample.disk_usage == disk_usage,
            sample.query_latency == query_latency,
            sample.network_in < SIMULATED_COUNTER_BOUND,
            sample.network_out < SIMULATED_COUNTER_BOUND,
            sample.vector_count < SIMULATED_COUNTER_BOUND,
            sample.query_count < SIMULATED_QUERY_BOUND,
            final(self)@ == (MetricsView {
                samples: old(self)@.samples.push(sample@),
                ..old(self)@
            }),
    {
        let sample = NodeMetrics {
            node_id: node_id.to_string(),
            cpu_usage: cpu_usage,
            memory_usage: memory_usage,
            disk_usage: disk_usage,
            network_in: random_below(SIMULATED_COUNTER_BOUND),
            network_out: random_below(SIMULATED_COUNTER_BOUND),
            query_count: random_below(SIMULATED_QUERY_BOUND),
            query_latency: query_latency,
            vector_count: random_below(SIMULATED_COUNTER_BOUND),
            timestamp: now_seconds(),
        };
        self.record_node_metrics(sample)
    }

    /// The totals over the cluster at time `now`: the number of nodes and of
    /// healthy nodes that `cluster_manager` knows, the sums of the vector and
    /// query counts of all samples, and the average latency that the caller
    /// computed. They become the current totals. Returns nothing, and changes
    /// nothing, if a sum does not fit 64 bits.
    pub fn summarize_cluster(
        &mut self,
        cluster_manager: &ClusterManager,
        average_query_latency: u64,
        now: u64,
    ) -> (totals: Option<ClusterMetrics>)
        ensures
            total_vectors(old(self)@.samples) > u64::MAX || total_queries(old(self)@.samples)
                > u64::MAX ==> totals is None && final(self)@ == old(self)@,
            total_vectors(old(self)@.samples) <= u64::MAX && total_queries(old(self)@.samples)
                <= u64::MAX ==> totals is Some && totals->0 == (ClusterMetrics {
                total_nodes: cluster_manager@.nodes.len() as usize,
                healthy_nodes: healthy_nodes(cluster_manager@.nodes).len() as usize,
                total_vectors: total_vectors(old(self)@.samples) as u64,
                total_queries: total_queries(old(self)@.samples) as u64,
                average_query_latency: average_query_latency,
                timestamp: now,
            }) && final(self)@ == (MetricsView { cluster: totals, ..old(self)@ }),
    {
        let ghost all = self@.samples;
        let mut vectors: u128 = 0;
        let mut queries: u128 = 0;
        let mut i: usize = 0;
        assert(all.take(0) =~= Seq::<NodeMetricsView>::empty());
        while i < self.node_metrics.len()
            invariant
                i <= self.node_metrics.len(),
                *self == *old(self),
                all == sample_views(self.node_metrics@),
                vectors == total_vectors(all.take(i as int)),
                queries == total_queries(all.take(i as int)),
                vectors <= i * 0xffff_ffff_ffff_ffff,
                queries <= i * 0xffff_ffff_ffff_ffff,
            decreases self.node_metrics.len() - i,
        {
            proof {
                assert(all.take(i + 1).drop_last() =~= all.take(i as int));
                assert(all.take(i + 1).last() == self.node_metrics[i as int]@);
            }
            vectors = vectors + (self.node_metrics[i].vector_count as u128);
            queries = queries + (self.node_metrics[i].query_count as u128);
            i += 1;
        }
        proof {
            assert(all.take(i as int) =~= all);
        }
        if vectors > (u64::MAX as u128) || queries > (u64::MAX as u128) {
            return None;
        }
        let totals = ClusterMetrics {
            total_nodes: cluster_manager.get_nodes().len(),
            healthy_nodes: cluster_manager.get_healthy_nodes().len(),
            total_vectors: vectors as u64,
            total_queries: queries as u64,
            average_query_latency: average_query_latency,
            timestamp: now,
        };
        self.cluster_metrics = Some(totals);
        Some(totals)
    }

    /// The totals over the cluster as of now. See `summarize_cluster`.
    pub fn collect_cluster_metrics(
        &mut self,
        cluster_manager: &ClusterManager,
        average_query_latency: u64,
    ) -> (totals: Option<ClusterMetrics>)
        ensures
            total_vectors(old(self)@.samples) > u64::MAX || total_queries(old(self)@.samples)
                > u64::MAX ==> totals is None && final(self)@ == old(self)@,
            total_vectors(old(self)@.samples) <= u64::MAX && total_queries(old(self)@.samples)
                <= u64::MAX ==> totals is Some && totals->0 == (ClusterMetrics {
                total_nodes: cluster_manager@.nodes.len() as usize,
                healthy_nodes: healthy_nodes(cluster_manager@.nodes).len() as usize,
                total_vectors: total_vectors(old(self)@.samples) as u64,
                total_queries: total_queries(old(self)@.samples) as u64,
                average_query_latency: average_query_latency,
                timestamp: totals->0.timestamp,
            }) && final(self)@ == (MetricsView { cluster: totals, ..old(self)@ }),
    {
        let now = now_seconds();
        self.summarize_cluster(cluster_manager, average_query_latency, now)
    }

    /// The latest sample of the node `node_id`, if there is one.
    pub fn get_node_metrics(&self, node_id: &str) -> (found: Option<NodeMetrics>)
        ensures
            match found {
                Some(sample) => exists|at: int|
                    is_latest_sample_of(self@.samples, node_id@, at) && sample@
                        == #[trigger] self@.samples[at],
                None => forall|j: int|
                    0 <= j < self@.samples.len() ==> (#[trigger] self@.samples[j]).node_id
                        != node_id@,
            },
    {
        let ghost all = self@.samples;
        let mut i: usize = self.node_metrics.len();
        while i > 0
            invariant
                i <= self.node_metrics.len(),
                all == sample_views(self.node_metrics@),
                forall|j: int| i <= j < all.len() ==> (#[trigger] all[j]).node_id != node_id@,
            decreases i,
        {
            assert(all[i - 1] == self.node_metrics[i - 1]@);
            if str_same(self.node_metrics[i - 1].node_id.as_str(), node_id) {
                let sample = self.node_metrics[i - 1].clone();
                assert(is_latest_sample_of(self@.samples, node_id@, i - 1) && sample@
                    == self@.samples[i - 1]);
                return Some(sample);
            }
            i -= 1;
        }
        None
    }

    /// Every sample, oldest first.
    pub fn list_node_metrics(&self) -> (samples: Vec<NodeMetrics>)
        ensures
            sample_views(samples@) == self@.samples,
    {
        let mut out: Vec<NodeMetrics> = Vec::new();
        let mut i: usize = 0;
        while i < self.node_metrics.len()
            invariant
                i <= self.node_metrics.len(),
                out@ == self.node_metrics@.take(i as int),
            decreases self.node_metrics.len() - i,
        {
            out.push(self.node_metrics[i].clone());
            assert(self.node_metrics@.take(i + 1) =~= self.node_metrics@.take(i as int).push(
                self.node_metrics@[i as int],
            ));
            i += 1;
        }
        assert(self.node_metrics@.take(i as int) =~= self.node_metrics@);
        out
    }

    /// The current totals, if any were computed.
    pub fn get_cluster_metrics(&self) -> (totals: Option<ClusterMetrics>)
        ensures
            totals == self@.cluster,
    {
        self.cluster_metrics
    }
}

} // verus!
