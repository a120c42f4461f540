//! Bookkeeping of data replication: which node holds replicas of which
//! collection, and when they were last brought up to date.

use vstd::prelude::*;
use crate::cluster::{node_views, ClusterManager};
use crate::error::CoordinationError;
use crate::system::now_seconds;
use crate::text::str_same;

verus! {

/// How replication is carried out. Intervals are whole seconds.
#[derive(Debug)]
pub struct ReplicationConfig {
    pub replica_count: usize,
    pub replication_factor: usize,
    pub sync_replication: bool,
    pub replication_interval_secs: u64,
    pub replication_timeout_secs: u64,
}

impl Clone for ReplicationConfig {
    fn clone(&self) -> (copy: Self)
        ensures
            copy == *self,
    {
        ReplicationConfig {
            replica_count: self.replica_count,
            replication_factor: self.replication_factor,
            sync_replication: self.sync_replication,
            replication_interval_secs: self.replication_interval_secs,
            replication_timeout_secs: self.replication_timeout_secs,
        }
    }
}

/// The state of the replicas of one collection on one node.
#[derive(Debug)]
pub struct ReplicationStatus {
    pub node_id: String,
    pub collection_name: String,
    pub replica_count: usize,
    pub healthy_replicas: usize,
    pub last_replication: u64,
    pub status: String,
}

/// The mathematical value of a [`ReplicationStatus`].
pub struct ReplicationStatusView {
    pub node_id: Seq<char>,
    pub collection_name: Seq<char>,
    pub replica_count: usize,
    pub healthy_replicas: usize,
    pub last_replication: u64,
    pub status: Seq<char>,
}

impl View for ReplicationStatus {
    type V = ReplicationStatusView;

    open spec fn view(&self) -> ReplicationStatusView {
        ReplicationStatusView {
            node_id: self.node_id@,
            collection_name: self.collection_name@,
            replica_count: self.replica_count,
            healthy_replicas: self.healthy_replicas,
            last_replication: self.last_replication,
            status: self.status@,
        }
    }
}

impl Clone for ReplicationStatus {
    fn clone(&self) -> (copy: Self)
        ensures
            copy == *self,
    {
        ReplicationStatus {
            node_id: self.node_id.clone(),
            collection_name: self.collection_name.clone(),
            replica_count: self.replica_count,
            healthy_replicas: self.healthy_replicas,
            last_replication: self.last_replication,
            status: self.status.clone(),
        }
    }
}

/// The values of a sequence of statuses, in order.
pub open spec fn status_views(statuses: Seq<ReplicationStatus>) -> Seq<ReplicationStatusView> {
    statuses.map_values(|s: ReplicationStatus| s@)
}

/// The status of a replication of `collection` on `node_id` that completed at
/// `timestamp` with all `replicas` replicas healthy.
pub open spec fn completed_status(
    node_id: Seq<char>,
    collection: Seq<char>,
    replicas: usize,
    timestamp: u64,
) -> ReplicationStatusView {
    ReplicationStatusView {
        node_id: node_id,
        collection_name: collection,
        replica_count: replicas,
        healthy_replicas: replicas,
        last_replication: timestamp,
        status: "completed"@,
    }
}

/// `status` is about the collection `collection` on the node `node_id`.
pub open spec fn is_about(
    status: ReplicationStatusView,
    node_id: Seq<char>,
    collection: Seq<char>,
) -> bool {
    status.node_id == node_id && status.collection_name == collection
}

/// The position of the first status in `statuses` about `collection` on
/// `node_id`, or the length of `statuses` if there is none.
pub open spec fn first_about(
    statuses: Seq<ReplicationStatusView>,
    node_id: Seq<char>,
    collection: Seq<char>,
) -> int
    decreases statuses.len(),
{
    if statuses.len() == 0 {
        0
    } else if is_about(statuses[0], node_id, collection) {
        0
    } else {
        1 + first_about(statuses.drop_first(), node_id, collection)
    }
}

/// `statuses` with `status` in the place of the first one about the same node
/// and collection, or at the end if there was none.
pub open spec fn upsert(
    statuses: Seq<ReplicationStatusView>,
    status: ReplicationStatusView,
) -> Seq<ReplicationStatusView> {
    let at = first_about(statuses, status.node_id, status.collection_name);
    if at < statuses.len() {
        statuses.update(at, status)
    } else {
        statuses.push(status)
    }
}

/// `statuses` after each status of `added` was put in, in order.
pub open spec fn upsert_all(
    statuses: Seq<ReplicationStatusView>,
    added: Seq<ReplicationStatusView>,
) -> Seq<ReplicationStatusView>
    decreases added.len(),
{
    if added.len() == 0 {
        statuses
    } else {
        upsert(upsert_all(statuses, added.drop_last()), added.last())
    }
}

/// `first_about` is the least position of a matching status.
pub proof fn lemma_first_about(
    statuses: Seq<ReplicationStatusView>,
    node_id: Seq<char>,
    collection: Seq<char>,
)
    ensures
        0 <= first_about(statuses, node_id, collection) <= statuses.len(),
        first_about(statuses, node_id, collection) < statuses.len() ==> is_about(
            statuses[first_about(statuses, node_id, collection)],
            node_id,
            collection,
        ),
        forall|j: int|
            0 <= j < first_about(statuses, node_id, collection) ==> !is_about(
                #[trigger] statuses[j],
                node_id,
                collection,
            ),
    decreases statuses.len(),
{
    if statuses.len() > 0 && !is_about(statuses[0], node_id, collection) {
        let rest = statuses.drop_first();
        lemma_first_about(rest, node_id, collection);
        let at = first_about(rest, node_id, collection);
        assert forall|j: int| 0 <= j < 1 + at implies !is_about(
            #[trigger] statuses[j],
            node_id,
            collection,
        ) by {
            if j > 0 {
                assert(statuses[j] == rest[j - 1]);
            }
        }
        if at < rest.len() {
            assert(statuses[1 + at] == rest[at]);
        }
    }
}

/// A position `at` before which no status matches is `first_about`, if the
/// status at `at` matches or `at` is the length.
pub proof fn lemma_first_about_is(
    statuses: Seq<ReplicationStatusView>,
    node_id: Seq<char>,
    collection: Seq<char>,
    at: int,
)
    requires
        0 <= at <= statuses.len(),
        forall|j: int| 0 <= j < at ==> !is_about(#[trigger] statuses[j], node_id, collection),
        at < statuses.len() ==> is_about(statuses[at], node_id, collection),
    ensures
        first_about(statuses, node_id, collection) == at,
{
    lemma_first_about(statuses, node_id, collection);
    let f = first_about(statuses, node_id, collection);
    if f < at {
        assert(!is_about(statuses[f], node_id, collection));
    }
    if at < f {
        assert(!is_about(statuses[at], node_id, collection));
    }
}

/// Keeps the replication statuses of a cluster.
#[derive(Debug)]
pub struct ReplicationManager {
    config: ReplicationConfig,
    replication_statuses: Vec<ReplicationStatus>,
}

/// The mathematical value of a [`ReplicationManager`].
pub struct ReplicationView {
    pub config: ReplicationConfig,
    pub statuses: Seq<ReplicationStatusView>,
}

impl View for ReplicationManager {
    type V = ReplicationView;

    closed spec fn view(&self) -> ReplicationView {
        ReplicationView {
            config: self.config,
            statuses: status_views(self.replication_statuses@),
        }
    }
}

impl ReplicationManager {
    /// A manager without statuses that keeps 2 replicas with a replication
    /// factor of 3, replicates asynchronously every 60 seconds and gives up
    /// after 30 seconds.
    pub fn new() -> (manager: Self)
        ensures
            manager@.statuses == Seq::<ReplicationStatusView>::empty(),
            manager@.config == (ReplicationConfig {
                replica_count: 2,
                replication_factor: 3,
                sync_replication: false,
                replication_interval_secs: 60,
                replication_timeout_secs: 30,
            }),
    {
        let manager = ReplicationManager {
            config: ReplicationConfig {
                replica_count: 2,
                replication_factor: 3,
                sync_replication: false,
                replication_interval_secs: 60,
                replication_timeout_secs: 30,
            },
            replication_statuses: Vec::new(),
        };
        assert(manager@.statuses =~= Seq::<ReplicationStatusView>::empty());
        manager
    }

    /// The same manager with `config` in the place of its configuration.
    pub fn with_config(self, config: ReplicationConfig) -> (manager: Self)
        ensures
            manager@.config == config,
            manager@.statuses == self@.statuses,
    {
        let mut manager = self;
        manager.config = config;
        manager
    }

    /// The configuration in use.
    pub fn config(&self) -> (config: ReplicationConfig)
        ensures
            config == self@.config,
    {
        self.config.clone()
    }

    /// Records that the replication of `collection_name` on `node_id` completed
    /// at `timestamp` with every configured replica healthy. The new status
    /// takes the place of the earlier one for the same node and collection, or
    /// is added at the end. Returns the new status.
    pub fn record_replication(&mut self, node_id: &str, collection_name: &str, timestamp: u64) -> (status:
        ReplicationStatus)
        ensures
            status@ == completed_status(
                node_id@,
                collection_name@,
                old(self)@.config.replica_count,
                timestamp,
            ),
            final(self)@.config == old(self)@.config,
            final(self)@.statuses == upsert(old(self)@.statuses, status@),
    {
        let ghost before = self@.statuses;
        let status = ReplicationStatus {
            node_id: node_id.to_string(),
            collection_name: collection_name.to_string(),
            replica_count: self.config.replica_count,
            healthy_replicas: self.config.replica_count,
            last_replication: timestamp,
            status: "completed".to_string(),
        };
        let mut i: usize = 0;
        while i < self.replication_statuses.len()
            invariant
                i <= self.replication_statuses.len(),
                self.replication_statuses == old(self).replication_statuses,
                self.config == old(self).config,
                before == status_views(self.replication_statuses@),
                before == old(self)@.statuses,
                status@ == completed_status(
                    node_id@,
                    collection_name@,
                    old(self)@.config.replica_count,
                    timestamp,
                ),
                forall|j: int|
                    0 <= j < i ==> !is_about(#[trigger] before[j], node_id@, collection_name@),
            decreases self.replication_statuses.len() - i,
        {
            if str_same(self.replication_statuses[i].node_id.as_str(), node_id) && str_same(
                self.replication_statuses[i].collection_name.as_str(),
                collection_name,
            ) {
                proof {
                    assert(before[i as int] == self.replication_statuses[i as int]@);
                    lemma_first_about_is(before, node_id@, collection_name@, i as int);
                }
                self.replication_statuses[i] = status.clone();
                assert(self@.statuses =~= before.update(i as int, status@));
                return status;
            }
            assert(before[i as int] == self.replication_statuses[i as int]@);
            i += 1;
        }
        proof {
            lemma_first_about_is(before, node_id@, collection_name@, i as int);
        }
        self.replication_statuses.push(status.clone());
        assert(self@.statuses =~= before.push(status@));
        status
    }

    /// Replicates `collection_name` on `node_id` and records that it completed
    /// now.
    pub fn replicate_data(&mut self, node_id: &str, collection_name: &str) -> (res: Result<
        ReplicationStatus,
        CoordinationError,
    >)
        ensures
            res is Ok,
            final(self)@.config == old(self)@.config,
            final(self)@.statuses == upsert(old(self)@.statuses, res->Ok_0@),
            exists|timestamp: u64|
                res->Ok_0@ == completed_status(
                    node_id@,
                    collection_name@,
                    old(self)@.config.replica_count,
                    timestamp,
                ),
    {
        let timestamp = now_seconds();
        Ok(self.record_replication(node_id, collection_name, timestamp))
    }

    /// Replicates every collection on every node that `cluster_manager` knows,
    /// one node after the other, and records each under the collection name
    /// `all`. Returns the new statuses in the order of the nodes.
    pub fn replicate_cluster_data(&mut self, cluster_manager: &ClusterManager) -> (res: Result<
        Vec<ReplicationStatus>,
        CoordinationError,
    >)
        ensures
            res is Ok,
            final(self)@.config == old(self)@.config,
            res->Ok_0.len() == cluster_manager@.nodes.len(),
            forall|i: int|
                0 <= i < cluster_manager@.nodes.len() ==> (#[trigger] res->Ok_0[i])@
                    == completed_status(
                    cluster_manager@.nodes[i].id,
                    "all"@,
                    old(self)@.config.replica_count,
                    res->Ok_0[i].last_replication,
                ),
            final(self)@.statuses == upsert_all(old(self)@.statuses, status_views(res->Ok_0@)),
    {
        let nodes = cluster_manager.get_nodes();
        let mut statuses: Vec<ReplicationStatus> = Vec::new();
        let mut i: usize = 0;
        assert(status_views(statuses@) =~= Seq::<ReplicationStatusView>::empty());
        while i < nodes.len()
            invariant
                i <= nodes.len(),
                statuses.len() == i,
                node_views(nodes@) == cluster_manager@.nodes,
                self@.config == old(self)@.config,
                forall|j: int|
                    0 <= j < i ==> (#[trigger] statuses[j])@ == completed_status(
                        nodes[j].id@,
                        "all"@,
                        old(self)@.config.replica_count,
                        statuses[j].last_replication,
                    ),
                self@.statuses == upsert_all(old(self)@.statuses, status_views(statuses@)),
            decreases nodes.len() - i,
        {
            let ghost so_far = status_views(statuses@);
            let status = match self.replicate_data(nodes[i].id.as_str(), "all") {
                Ok(status) => status,
                Err(e) => {
                    return Err(e);
                },
            };
            statuses.push(status);
            proof {
                let grown = status_views(statuses@);
                assert(grown.drop_last() =~= so_far);
                assert(grown.last() == status@);
            }
            i += 1;
        }
        proof {
            assert forall|j: int| 0 <= j < cluster_manager@.nodes.len() implies (
            #[trigger] statuses[j])@ == completed_status(
                cluster_manager@.nodes[j].id,
                "all"@,
                old(self)@.config.replica_count,
                statuses[j].last_replication,
            ) by {
                assert(cluster_manager@.nodes[j] == nodes[j]@);
            }
        }
        Ok(statuses)
    }

    /// The status of `collection_name` on `node_id`, if one was recorded.
    pub fn get_replication_status(&self, node_id: &str, collection_name: &str) -> (res: Result<
        Option<ReplicationStatus>,
        CoordinationError,
    >)
        ensures
            res is Ok,
            match res->Ok_0 {
                Some(status) => {
                    let at = first_about(self@.statuses, node_id@, collection_name@);
                    at < self@.statuses.len() && status@ == self@.statuses[at]
                },
                None => first_about(self@.statuses, node_id@, collection_name@)
                    == self@.statuses.len(),
            },
    {
        let ghost all = self@.statuses;
        let mut i: usize = 0;
        while i < self.replication_statuses.len()
            invariant
                i <= self.replication_statuses.len(),
                all == status_views(self.replication_statuses@),
                forall|j: int| 0 <= j < i ==> !is_about(#[trigger] all[j], node_id@, collection_name@),
            decreases self.replication_statuses.len() - i,
        {
            assert(all[i as int] == self.replication_statuses[i as int]@);
            if str_same(self.replication_statuses[i].node_id.as_str(), node_id) && str_same(
                self.replication_statuses[i].collection_name.as_str(),
                collection_name,
            ) {
                proof {
                    lemma_first_about_is(all, node_id@, collection_name@, i as int);
                }
                return Ok(Some(self.replication_statuses[i].clone()));
            }
            i += 1;
        }
        proof {
            lemma_first_about_is(all, node_id@, collection_name@, i as int);
        }
        Ok(None)
    }

    /// Every recorded status, in the order in which each was first recorded.
    pub fn list_replication_statuses(&self) -> (res: Result<
        Vec<ReplicationStatus>,
        CoordinationError,
    >)
        ensures
            res is Ok,
            status_views(res->Ok_0@) == self@.statuses,
    {
        let mut out: Vec<ReplicationStatus> = Vec::new();
        let mut i: usize = 0;
        while i < self.replication_statuses.len()
            invariant
                i <= self.replication_statuses.len(),
                out@ == self.replication_statuses@.take(i as int),
            decreases self.replication_statuses.len() - i,
        {
            out.push(self.replication_statuses[i].clone());
            assert(self.replication_statuses@.take(i + 1) =~= self.replication_statuses@.take(
                i as int,
            ).push(self.replication_statuses@[i as int]));
            i += 1;
        }
        assert(self.replication_statuses@.take(i as int) =~= self.replication_statuses@);
        Ok(out)
    }
}

} // verus!
