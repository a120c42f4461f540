//! Cluster membership, failure detection and leader election.

use vstd::prelude::*;
use crate::error::CoordinationError;
use crate::seqs::{lemma_filter_take_step, lemma_filter_take_zero};
use crate::system::{fresh_node_id, now_seconds};
use crate::text::{
    id_less, id_less_eq, lemma_id_less_irreflexive, lemma_id_less_total, lemma_id_less_transitive,
    str_less, str_same,
};

verus! {

/// Seconds between two passes of the failure detector.
pub const HEARTBEAT_INTERVAL_SECS: u64 = 5;

/// A node whose last heartbeat is more than this many seconds old is stale.
pub const STALENESS_THRESHOLD_SECS: u64 = 30;

/// Liveness of a node as the cluster sees it.
#[derive(Debug, Clone, Copy, PartialEq, Eq, Structural)]
pub enum NodeStatus {
    Healthy,
    Unhealthy,
    Joining,
    Leaving,
}

/// One member of the cluster.
#[derive(Debug)]
pub struct NodeInfo {
    pub id: String,
    pub address: String,
    pub port: u16,
    pub is_leader: bool,
    pub status: NodeStatus,
    pub last_heartbeat: u64,
}

/// The mathematical value of a [`NodeInfo`].
pub struct NodeView {
    pub id: Seq<char>,
    pub address: Seq<char>,
    pub port: u16,
    pub is_leader: bool,
    pub status: NodeStatus,
    pub last_heartbeat: u64,
}

impl View for NodeInfo {
    type V = NodeView;

    open spec fn view(&self) -> NodeView {
        NodeView {
            id: self.id@,
            address: self.address@,
            port: self.port,
            is_leader: self.is_leader,
            status: self.status,
            last_heartbeat: self.last_heartbeat,
        }
    }
}

impl Clone for NodeInfo {
    fn clone(&self) -> (copy: Self)
        ensures
            copy == *self,
    {
        NodeInfo {
            id: self.id.clone(),
            address: self.address.clone(),
            port: self.port,
            is_leader: self.is_leader,
            status: self.status,
            last_heartbeat: self.last_heartbeat,
        }
    }
}

/// The values of a sequence of nodes, in order.
pub open spec fn node_views(nodes: Seq<NodeInfo>) -> Seq<NodeView> {
    nodes.map_values(|n: NodeInfo| n@)
}

/// The mathematical value of a [`ClusterManager`]: the known nodes, the
/// identifier of the current leader, and the identifier of the node that the
/// manager runs on.
pub struct ClusterView {
    pub nodes: Seq<NodeView>,
    pub leader_id: Option<Seq<char>>,
    pub self_id: Seq<char>,
}

/// No identifier occurs twice among `nodes`.
pub open spec fn ids_unique(nodes: Seq<NodeView>) -> bool {
    forall|i: int, j: int| 0 <= i < j < nodes.len() ==> nodes[i].id != nodes[j].id
}

/// Some node of `nodes` has the identifier `id`.
pub open spec fn has_id(nodes: Seq<NodeView>, id: Seq<char>) -> bool {
    exists|i: int| 0 <= i < nodes.len() && nodes[i].id == id
}

/// Some node of `nodes` is healthy.
pub open spec fn some_healthy(nodes: Seq<NodeView>) -> bool {
    exists|i: int| 0 <= i < nodes.len() && nodes[i].status == NodeStatus::Healthy
}

/// The healthy nodes of `nodes`, in order.
pub open spec fn healthy_nodes(nodes: Seq<NodeView>) -> Seq<NodeView> {
    nodes.filter(|n: NodeView| n.status == NodeStatus::Healthy)
}

/// `id` belongs to a healthy node of `nodes`, and no healthy node has a smaller
/// identifier.
pub open spec fn is_smallest_healthy(nodes: Seq<NodeView>, id: Seq<char>) -> bool {
    &&& exists|i: int|
        0 <= i < nodes.len() && nodes[i].id == id && nodes[i].status == NodeStatus::Healthy
    &&& forall|j: int|
        0 <= j < nodes.len() && nodes[j].status == NodeStatus::Healthy ==> id_less_eq(
            id,
            #[trigger] nodes[j].id,
        )
}

/// What an election over `nodes` may name as leader: the smallest healthy
/// identifier, or nobody where no node is healthy.
pub open spec fn is_election_result(nodes: Seq<NodeView>, leader: Option<Seq<char>>) -> bool {
    match leader {
        Some(id) => is_smallest_healthy(nodes, id),
        None => !some_healthy(nodes),
    }
}

/// `node` with its leader flag set to whether it is `leader`.
pub open spec fn flag_leader(node: NodeView, leader: Option<Seq<char>>) -> NodeView {
    NodeView { is_leader: leader == Some(node.id), ..node }
}

/// `nodes` with the leader flag of each set to whether it is `leader`.
pub open spec fn flag_leaders(nodes: Seq<NodeView>, leader: Option<Seq<char>>) -> Seq<NodeView> {
    nodes.map_values(|n: NodeView| flag_leader(n, leader))
}

/// `node` after a status report at time `now`, if the report names it.
pub open spec fn report_status(
    node: NodeView,
    id: Seq<char>,
    status: NodeStatus,
    now: u64,
) -> NodeView {
    if node.id == id {
        NodeView { status: status, last_heartbeat: now, ..node }
    } else {
        node
    }
}

/// `nodes` after a status report for `id` at time `now`.
pub open spec fn report_statuses(
    nodes: Seq<NodeView>,
    id: Seq<char>,
    status: NodeStatus,
    now: u64,
) -> Seq<NodeView> {
    nodes.map_values(|n: NodeView| report_status(n, id, status, now))
}

/// Whether a heartbeat taken at `last_heartbeat` is stale at time `now`.
pub open spec fn is_stale(now: u64, last_heartbeat: u64) -> bool {
    now - last_heartbeat > STALENESS_THRESHOLD_SECS
}

/// `node` after a pass of the failure detector run at `now` on the node
/// `self_id`: every other node with a stale heartbeat becomes unhealthy.
pub open spec fn mark_stale(node: NodeView, self_id: Seq<char>, now: u64) -> NodeView {
    if node.id != self_id && is_stale(now, node.last_heartbeat) {
        NodeView { status: NodeStatus::Unhealthy, ..node }
    } else {
        node
    }
}

/// `nodes` after a pass of the failure detector.
pub open spec fn mark_all_stale(nodes: Seq<NodeView>, self_id: Seq<char>, now: u64) -> Seq<
    NodeView,
> {
    nodes.map_values(|n: NodeView| mark_stale(n, self_id, now))
}

/// The nodes of `nodes` whose identifier is not `id`, in order.
pub open spec fn without_id(nodes: Seq<NodeView>, id: Seq<char>) -> Seq<NodeView> {
    nodes.filter(|n: NodeView| n.id != id)
}

/// The leader `leader` named in `nodes` is unhealthy.
pub open spec fn leader_unhealthy(nodes: Seq<NodeView>, leader: Option<Seq<char>>) -> bool {
    exists|i: int|
        0 <= i < nodes.len() && leader == Some(nodes[i].id) && nodes[i].status
            == NodeStatus::Unhealthy
}

/// `after` is `before` once an election has run: the leader is the smallest
/// healthy identifier, or nobody, and exactly the leader carries the flag.
pub open spec fn elected(before: ClusterView, after: ClusterView) -> bool {
    &&& after.self_id == before.self_id
    &&& is_election_result(before.nodes, after.leader_id)
    &&& after.nodes == flag_leaders(before.nodes, after.leader_id)
}

/// `after` is `before` once `node` has asked to join: it stands at the end,
/// without the leader flag, unless a node with its identifier was known.
pub open spec fn node_joined(before: ClusterView, after: ClusterView, node: NodeView) -> bool {
    after == (ClusterView {
        nodes: if has_id(before.nodes, node.id) {
            before.nodes
        } else {
            before.nodes.push(flag_leader(node, None))
        },
        ..before
    })
}

/// A change of membership: a node asks to join, or the node with some
/// identifier leaves.
pub enum MembershipChange {
    Join(NodeView),
    Leave(Seq<char>),
}

/// `after` is `before` once the change `change` was made.
pub open spec fn membership_changed(
    before: ClusterView,
    after: ClusterView,
    change: MembershipChange,
) -> bool {
    match change {
        MembershipChange::Join(node) => node_joined(before, after, node),
        MembershipChange::Leave(id) => node_removed(before, after, id),
    }
}

/// `after` is `before` once the node `id` has left: the other nodes stay, and a
/// new election has run if the leader was the one to leave.
pub open spec fn node_removed(before: ClusterView, after: ClusterView, id: Seq<char>) -> bool {
    let kept = ClusterView { nodes: without_id(before.nodes, id), ..before };
    if before.leader_id == Some(id) {
        elected(kept, after)
    } else {
        after == kept
    }
}

/// `after` is `before` once the status `status` was reported for `id` at `now`.
pub open spec fn status_reported(
    before: ClusterView,
    after: ClusterView,
    id: Seq<char>,
    status: NodeStatus,
    now: u64,
) -> bool {
    after == (ClusterView { nodes: report_statuses(before.nodes, id, status, now), ..before })
}

/// `after` is `before` once the failure detector has run at `now`: stale nodes
/// other than the manager's own are unhealthy, and a new election has run if
/// that left the leader unhealthy.
pub open spec fn health_checked(before: ClusterView, after: ClusterView, now: u64) -> bool {
    let marked = ClusterView {
        nodes: mark_all_stale(before.nodes, before.self_id, now),
        ..before
    };
    if leader_unhealthy(marked.nodes, marked.leader_id) {
        elected(marked, after)
    } else {
        after == marked
    }
}

impl ClusterView {
    /// The invariant of a cluster view: identifiers are unique, the leader is a
    /// known node, and exactly the leader carries the leader flag.
    pub open spec fn wf(self) -> bool {
        &&& ids_unique(self.nodes)
        &&& self.leader_id is Some ==> has_id(self.nodes, self.leader_id->0)
        &&& forall|i: int|
            0 <= i < self.nodes.len() ==> (#[trigger] self.nodes[i]).is_leader == (self.leader_id
                == Some(self.nodes[i].id))
    }

    /// The leader, if there is one, is healthy.
    pub open spec fn leader_is_healthy(self) -> bool {
        forall|i: int|
            0 <= i < self.nodes.len() && self.leader_id == Some(self.nodes[i].id) ==> (
            #[trigger] self.nodes[i]).status == NodeStatus::Healthy
    }
}

/// Whether a heartbeat taken at `last_heartbeat` is stale at time `now`.
pub fn heartbeat_is_stale(now: u64, last_heartbeat: u64) -> (stale: bool)
    ensures
        stale == is_stale(now, last_heartbeat),
{
    now > last_heartbeat && now - last_heartbeat > STALENESS_THRESHOLD_SECS
}

/// Cluster membership as one node holds it: the known nodes, the node's own
/// record, and the identifier of the current leader.
#[derive(Debug)]
pub struct ClusterManager {
    nodes: Vec<NodeInfo>,
    self_node: NodeInfo,
    leader_id: Option<String>,
}

impl View for ClusterManager {
    type V = ClusterView;

    closed spec fn view(&self) -> ClusterView {
        ClusterView {
            nodes: node_views(self.nodes@),
            leader_id: match self.leader_id {
                Some(id) => Some(id@),
                None => None,
            },
            self_id: self.self_node.id@,
        }
    }
}

/// The first position in `nodes` of a node with identifier `id`.
fn position_of(nodes: &Vec<NodeInfo>, id: &str) -> (found: Option<usize>)
    ensures
        match found {
            Some(i) => i < nodes.len() && nodes[i as int].id@ == id@ && forall|j: int|
                0 <= j < i ==> nodes[j].id@ != id@,
            None => forall|j: int| 0 <= j < nodes.len() ==> nodes[j].id@ != id@,
        },
{
    let mut i: usize = 0;
    while i < nodes.len()
        invariant
            i <= nodes.len(),
            forall|j: int| 0 <= j < i ==> nodes[j].id@ != id@,
        decreases nodes.len() - i,
    {
        if str_same(nodes[i].id.as_str(), id) {
            return Some(i);
        }
        i += 1;
    }
    None
}

/// The value of an optional identifier.
pub open spec fn id_view(id: Option<String>) -> Option<Seq<char>> {
    match id {
        Some(s) => Some(s@),
        None => None,
    }
}

/// The position in `nodes` of the healthy node with the smallest identifier.
fn smallest_healthy(nodes: &Vec<NodeInfo>) -> (best: Option<usize>)
    ensures
        match best {
            Some(b) => b < nodes.len() && is_smallest_healthy(
                node_views(nodes@),
                nodes[b as int].id@,
            ) && nodes[b as int].status == NodeStatus::Healthy,
            None => !some_healthy(node_views(nodes@)),
        },
{
    let mut best: Option<usize> = None;
    let mut i: usize = 0;
    while i < nodes.len()
        invariant
            i <= nodes.len(),
            match best {
                Some(b) => b < i && nodes[b as int].status == NodeStatus::Healthy && forall|j: int|
                    0 <= j < i && nodes[j].status == NodeStatus::Healthy ==> id_less_eq(
                        nodes[b as int].id@,
                        #[trigger] nodes[j].id@,
                    ),
                None => forall|j: int| 0 <= j < i ==> nodes[j].status != NodeStatus::Healthy,
            },
        decreases nodes.len() - i,
    {
        if nodes[i].status == NodeStatus::Healthy {
            match best {
                Some(b) => {
                    if str_less(nodes[i].id.as_str(), nodes[b].id.as_str()) {
                        proof {
                            let cand = nodes[i as int].id@;
                            let prev = nodes[b as int].id@;
                            lemma_id_less_irreflexive(cand);
                            assert forall|j: int|
                                0 <= j < i && nodes[j].status == NodeStatus::Healthy implies id_less_eq(
                                cand,
                                #[trigger] nodes[j].id@,
                            ) by {
                                if id_less(nodes[j].id@, cand) {
                                    lemma_id_less_transitive(nodes[j].id@, cand, prev);
                                }
                            }
                        }
                        best = Some(i);
                    } else {
                    }
                },
                None => {
                    proof {
                        lemma_id_less_irreflexive(nodes[i as int].id@);
                    }
                    best = Some(i);
                },
            }
        }
        i += 1;
    }
    proof {
        let views = node_views(nodes@);
        assert forall|j: int| 0 <= j < views.len() implies views[j] == nodes[j]@ by {}
        match best {
            Some(b) => {
                assert(views[b as int].id == nodes[b as int].id@);
                assert forall|j: int|
                    0 <= j < views.len() && views[j].status == NodeStatus::Healthy implies id_less_eq(
                    nodes[b as int].id@,
                    #[trigger] views[j].id,
                ) by {
                    assert(views[j] == nodes[j]@);
                }
            },
            None => {
                assert forall|j: int| 0 <= j < views.len() implies views[j].status
                    != NodeStatus::Healthy by {
                    assert(views[j] == nodes[j]@);
                }
            },
        }
    }
    best
}

/// Sets the leader flag of each node to whether it is `leader`.
fn set_leader_flags(nodes: &mut Vec<NodeInfo>, leader: &Option<String>)
    ensures
        node_views(final(nodes)@) == flag_leaders(node_views(old(nodes)@), id_view(*leader)),
{
    let mut i: usize = 0;
    while i < nodes.len()
        invariant
            i <= nodes.len(),
            nodes.len() == old(nodes).len(),
            forall|j: int| 0 <= j < i ==> nodes[j]@ == flag_leader(old(nodes)[j]@, id_view(*leader)),
            forall|j: int| i <= j < nodes.len() ==> nodes[j]@ == old(nodes)[j]@,
        decreases nodes.len() - i,
    {
        let flag = match leader {
            Some(id) => str_same(nodes[i].id.as_str(), id.as_str()),
            None => false,
        };
        nodes[i].is_leader = flag;
        i += 1;
    }
    assert(node_views(nodes@) =~= flag_leaders(node_views(old(nodes)@), id_view(*leader)));
}

/// A view whose nodes carry the flags of an election over unique identifiers is
/// well formed, and its leader is healthy.
proof fn lemma_election_wf(nodes: Seq<NodeView>, leader: Option<Seq<char>>, self_id: Seq<char>)
    requires
        ids_unique(nodes),
        is_election_result(nodes, leader),
    ensures
        (ClusterView { nodes: flag_leaders(nodes, leader), leader_id: leader, self_id: self_id }).wf(),
        (ClusterView {
            nodes: flag_leaders(nodes, leader),
            leader_id: leader,
            self_id: self_id,
        }).leader_is_healthy(),
{
    let flagged = flag_leaders(nodes, leader);
    assert forall|i: int| 0 <= i < flagged.len() implies flagged[i] == flag_leader(
        nodes[i],
        leader,
    ) by {}
    if leader is Some {
        let b = choose|b: int|
            0 <= b < nodes.len() && nodes[b].id == leader->0 && nodes[b].status
                == NodeStatus::Healthy;
        assert(flagged[b].id == leader->0);
        assert forall|i: int|
            0 <= i < flagged.len() && leader == Some(flagged[i].id) implies (
        #[trigger] flagged[i]).status == NodeStatus::Healthy by {
            assert(i == b);
        }
    }
}

/// The nodes that stay when `id` leaves keep unique identifiers, and each of
/// them was a node before.
proof fn lemma_without_id(nodes: Seq<NodeView>, id: Seq<char>)
    requires
        ids_unique(nodes),
    ensures
        ids_unique(without_id(nodes, id)),
        !has_id(without_id(nodes, id), id),
        forall|other: Seq<char>|
            other != id ==> (has_id(nodes, other) <==> has_id(without_id(nodes, id), other)),
    decreases nodes.len(),
{
    reveal(Seq::filter);
    let pred = |n: NodeView| n.id != id;
    let kept = without_id(nodes, id);
    if nodes.len() > 0 {
        let front = nodes.drop_last();
        lemma_without_id(front, id);
        let kept_front = without_id(front, id);
        assert forall|other: Seq<char>| other != id implies (has_id(nodes, other) <==> has_id(
            kept,
            other,
        )) by {
            if has_id(nodes, other) {
                let k = choose|k: int| 0 <= k < nodes.len() && nodes[k].id == other;
                if k < nodes.len() - 1 {
                    assert(front[k].id == other);
                    assert(has_id(front, other));
                    assert(has_id(kept_front, other));
                    let m = choose|m: int| 0 <= m < kept_front.len() && kept_front[m].id == other;
                    assert(kept[m].id == other);
                } else {
                    assert(kept[kept.len() - 1].id == other);
                }
            }
            if has_id(kept, other) {
                let m = choose|m: int| 0 <= m < kept.len() && kept[m].id == other;
                if m < kept_front.len() {
                    assert(kept_front[m].id == other);
                    assert(has_id(front, other));
                    let k = choose|k: int| 0 <= k < front.len() && front[k].id == other;
                    assert(nodes[k].id == other);
                } else {
                    assert(nodes[nodes.len() - 1].id == other);
                }
            }
        }
        assert forall|i: int, j: int| 0 <= i < j < kept.len() implies kept[i].id
            != kept[j].id by {
            if j == kept_front.len() {
                assert(kept[j] == nodes.last());
                assert(kept_front[i].id == kept[i].id);
                if kept[i].id == kept[j].id {
                    assert(has_id(kept_front, kept[j].id));
                    assert(has_id(front, kept[j].id));
                    let k = choose|k: int| 0 <= k < front.len() && front[k].id == kept[j].id;
                    assert(nodes[k].id == nodes[nodes.len() - 1].id);
                }
            }
        }
        assert(!has_id(kept, id)) by {
            if has_id(kept, id) {
                let m = choose|m: int| 0 <= m < kept.len() && kept[m].id == id;
                if m < kept_front.len() {
                    assert(kept_front[m].id == id);
                }
            }
        }
    }
}

/// Where the node that leaves is not the leader, the view that is left is well
/// formed, and its leader is as healthy as before.
proof fn lemma_without_id_keeps_flags(before: ClusterView, id: Seq<char>)
    requires
        before.wf(),
        before.leader_id != Some(id),
    ensures
        (ClusterView { nodes: without_id(before.nodes, id), ..before }).wf(),
        before.leader_is_healthy() ==> (ClusterView {
            nodes: without_id(before.nodes, id),
            ..before
        }).leader_is_healthy(),
{
    let kept = without_id(before.nodes, id);
    lemma_without_id(before.nodes, id);
    assert forall|i: int| 0 <= i < kept.len() implies before.nodes.contains(
        #[trigger] kept[i],
    ) by {
        before.nodes.lemma_filter_contains_rev(|n: NodeView| n.id != id, kept[i]);
    }
    assert forall|i: int| 0 <= i < kept.len() implies (#[trigger] kept[i]).is_leader == (
    before.leader_id == Some(kept[i].id)) by {
        assert(before.nodes.contains(kept[i]));
    }
    if before.leader_is_healthy() {
        assert forall|i: int|
            0 <= i < kept.len() && before.leader_id == Some(kept[i].id) implies (
        #[trigger] kept[i]).status == NodeStatus::Healthy by {
            assert(before.nodes.contains(kept[i]));
        }
    }
}

/// Identifiers stay unique through one change of membership.
pub proof fn lemma_change_keeps_ids_unique(
    before: ClusterView,
    after: ClusterView,
    change: MembershipChange,
)
    requires
        ids_unique(before.nodes),
        membership_changed(before, after, change),
    ensures
        ids_unique(after.nodes),
{
    match change {
        MembershipChange::Join(node) => {
            if !has_id(before.nodes, node.id) {
                assert forall|i: int, j: int| 0 <= i < j < after.nodes.len() implies after.nodes[i].id
                    != after.nodes[j].id by {
                    if j == before.nodes.len() {
                        assert(after.nodes[i] == before.nodes[i]);
                        assert(before.nodes[i].id != node.id);
                    }
                }
            }
        },
        MembershipChange::Leave(id) => {
            lemma_without_id(before.nodes, id);
            if before.leader_id == Some(id) {
                let kept = without_id(before.nodes, id);
                assert forall|i: int, j: int| 0 <= i < j < after.nodes.len() implies after.nodes[i].id
                    != after.nodes[j].id by {
                    assert(after.nodes[i] == flag_leader(kept[i], after.leader_id));
                    assert(after.nodes[j] == flag_leader(kept[j], after.leader_id));
                }
            }
        },
    }
}

/// Identifiers stay unique through every sequence of joins and leaves: if
/// `states` begins with unique identifiers and each state follows from the one
/// before by the change at its place in `changes`, then identifiers are unique
/// in every state.
pub proof fn lemma_membership_keeps_ids_unique(
    states: Seq<ClusterView>,
    changes: Seq<MembershipChange>,
)
    requires
        states.len() == changes.len() + 1,
        ids_unique(states[0].nodes),
        forall|i: int|
            0 <= i < changes.len() ==> membership_changed(
                states[i],
                states[i + 1],
                #[trigger] changes[i],
            ),
    ensures
        forall|i: int| 0 <= i < states.len() ==> ids_unique((#[trigger] states[i]).nodes),
    decreases changes.len(),
{
    if changes.len() > 0 {
        let last = changes.len() - 1;
        let fewer_states = states.drop_last();
        let fewer_changes = changes.drop_last();
        assert forall|i: int| 0 <= i < fewer_changes.len() implies membership_changed(
            fewer_states[i],
            fewer_states[i + 1],
            #[trigger] fewer_changes[i],
        ) by {
            assert(membership_changed(states[i], states[i + 1], changes[i]));
        }
        lemma_membership_keeps_ids_unique(fewer_states, fewer_changes);
        assert(ids_unique(fewer_states[last].nodes));
        assert(membership_changed(states[last], states[last + 1], changes[last]));
        lemma_change_keeps_ids_unique(states[last], states[last + 1], changes[last]);
        assert forall|i: int| 0 <= i < states.len() implies ids_unique(
            (#[trigger] states[i]).nodes,
        ) by {
            if i < states.len() - 1 {
                assert(states[i] == fewer_states[i]);
            }
        }
    }
}

/// An election has one outcome: two leaders that satisfy the election rule over
/// the same nodes are the same.
pub proof fn lemma_election_result_unique(
    nodes: Seq<NodeView>,
    first: Option<Seq<char>>,
    second: Option<Seq<char>>,
)
    requires
        is_election_result(nodes, first),
        is_election_result(nodes, second),
    ensures
        first == second,
{
    if first is Some && second is Some {
        lemma_id_less_total(first->0, second->0);
    }
}

/// After an election over nodes of which one at least is healthy, exactly one
/// node carries the leader flag: a healthy node whose identifier is the leader's
/// and is not greater than that of any healthy node.
pub proof fn lemma_election_has_one_leader(before: ClusterView, after: ClusterView)
    requires
        ids_unique(before.nodes),
        some_healthy(before.nodes),
        elected(before, after),
    ensures
        after.leader_id is Some,
        exists|i: int|
            0 <= i < after.nodes.len() && (#[trigger] after.nodes[i]).is_leader && after.nodes[i].id
                == after.leader_id->0 && after.nodes[i].status == NodeStatus::Healthy && forall|
                j: int,
            |
                0 <= j < after.nodes.len() && (#[trigger] after.nodes[j]).is_leader ==> j == i,
        forall|j: int|
            0 <= j < after.nodes.len() && (#[trigger] after.nodes[j]).status == NodeStatus::Healthy
                ==> id_less_eq(after.leader_id->0, after.nodes[j].id),
{
    let leader = after.leader_id;
    let b = choose|b: int|
        0 <= b < before.nodes.len() && before.nodes[b].id == leader->0 && before.nodes[b].status
            == NodeStatus::Healthy;
    assert(after.nodes[b] == flag_leader(before.nodes[b], leader));
    assert forall|j: int| 0 <= j < after.nodes.len() && (#[trigger] after.nodes[j]).is_leader implies j
        == b by {
        assert(after.nodes[j] == flag_leader(before.nodes[j], leader));
    }
    assert forall|j: int|
        0 <= j < after.nodes.len() && (#[trigger] after.nodes[j]).status
            == NodeStatus::Healthy implies id_less_eq(leader->0, after.nodes[j].id) by {
        assert(after.nodes[j] == flag_leader(before.nodes[j], leader));
        assert(id_less_eq(leader->0, before.nodes[j].id));
    }
}

/// After an election over nodes of which none is healthy there is no leader,
/// and no node carries the leader flag.
pub proof fn lemma_election_without_healthy(before: ClusterView, after: ClusterView)
    requires
        !some_healthy(before.nodes),
        elected(before, after),
    ensures
        after.leader_id is None,
        forall|i: int| 0 <= i < after.nodes.len() ==> !(#[trigger] after.nodes[i]).is_leader,
{
    if after.leader_id is Some {
        let b = choose|b: int|
            0 <= b < before.nodes.len() && before.nodes[b].id == after.leader_id->0
                && before.nodes[b].status == NodeStatus::Healthy;
        assert(before.nodes[b].status == NodeStatus::Healthy);
    }
    assert forall|i: int| 0 <= i < after.nodes.len() implies !(#[trigger] after.nodes[i]).is_leader by {
        assert(after.nodes[i] == flag_leader(before.nodes[i], after.leader_id));
    }
}

/// In a well-formed view whose leader, if any, is healthy: where no node is
/// healthy there is no leader, and no node carries the leader flag.
pub proof fn lemma_no_healthy_no_leader(view: ClusterView)
    requires
        view.wf(),
        view.leader_is_healthy(),
        !some_healthy(view.nodes),
    ensures
        view.leader_id is None,
        forall|i: int| 0 <= i < view.nodes.len() ==> !(#[trigger] view.nodes[i]).is_leader,
{
    if view.leader_id is Some {
        let k = choose|k: int| 0 <= k < view.nodes.len() && view.nodes[k].id == view.leader_id->0;
        assert(view.nodes[k].status == NodeStatus::Healthy);
    }
}

/// An election changes leader flags only: every node keeps its identifier, its
/// address, its status and its last heartbeat.
pub proof fn lemma_election_keeps_statuses(before: ClusterView, after: ClusterView)
    requires
        elected(before, after),
    ensures
        after.nodes.len() == before.nodes.len(),
        forall|i: int|
            0 <= i < before.nodes.len() ==> (#[trigger] after.nodes[i]) == (NodeView {
                is_leader: after.nodes[i].is_leader,
                ..before.nodes[i]
            }),
{
    assert forall|i: int| 0 <= i < before.nodes.len() implies (#[trigger] after.nodes[i]) == (NodeView {
        is_leader: after.nodes[i].is_leader,
        ..before.nodes[i]
    }) by {
        assert(after.nodes[i] == flag_leader(before.nodes[i], after.leader_id));
    }
}

/// A pass of the failure detector at `now` makes unhealthy exactly the nodes,
/// other than the manager's own, whose last heartbeat is more than
/// `STALENESS_THRESHOLD_SECS` seconds before `now`. Every other node keeps its
/// status, and every node keeps its identifier and its last heartbeat.
pub proof fn lemma_detector_marks_exactly_stale(before: ClusterView, after: ClusterView, now: u64)
    requires
        health_checked(before, after, now),
    ensures
        after.nodes.len() == before.nodes.len(),
        forall|i: int|
            0 <= i < before.nodes.len() ==> (#[trigger] after.nodes[i]).id == before.nodes[i].id
                && after.nodes[i].last_heartbeat == before.nodes[i].last_heartbeat
                && after.nodes[i].status == if before.nodes[i].id != before.self_id
                && now - before.nodes[i].last_heartbeat > STALENESS_THRESHOLD_SECS {
                NodeStatus::Unhealthy
            } else {
                before.nodes[i].status
            },
{
    let marked = mark_all_stale(before.nodes, before.self_id, now);
    assert forall|i: int| 0 <= i < before.nodes.len() implies (#[trigger] after.nodes[i]).id
        == before.nodes[i].id && after.nodes[i].last_heartbeat == before.nodes[i].last_heartbeat
        && after.nodes[i].status == mark_stale(before.nodes[i], before.self_id, now).status by {
        assert(marked[i] == mark_stale(before.nodes[i], before.self_id, now));
        if leader_unhealthy(marked, before.leader_id) {
            assert(after.nodes[i] == flag_leader(marked[i], after.leader_id));
        }
    }
}

/// A view that differs from a well-formed one only in the status and the last
/// heartbeat of its nodes is well formed.
proof fn lemma_same_ids_wf(before: ClusterView, after: ClusterView)
    requires
        before.wf(),
        after.leader_id == before.leader_id,
        after.nodes.len() == before.nodes.len(),
        forall|i: int|
            0 <= i < before.nodes.len() ==> (#[trigger] after.nodes[i]).id == before.nodes[i].id
                && after.nodes[i].is_leader == before.nodes[i].is_leader,
    ensures
        after.wf(),
{
    assert forall|i: int, j: int| 0 <= i < j < after.nodes.len() implies after.nodes[i].id
        != after.nodes[j].id by {
        assert(before.nodes[i].id != before.nodes[j].id);
    }
    if before.leader_id is Some {
        let k = choose|k: int|
            0 <= k < before.nodes.len() && before.nodes[k].id == before.leader_id->0;
        assert(after.nodes[k].id == before.leader_id->0);
    }
    assert forall|i: int| 0 <= i < after.nodes.len() implies (#[trigger] after.nodes[i]).is_leader
        == (after.leader_id == Some(after.nodes[i].id)) by {
        assert(before.nodes[i].is_leader == (before.leader_id == Some(before.nodes[i].id)));
    }
}

impl ClusterManager {
    /// The invariant of the manager, which every constructor establishes and
    /// every operation keeps.
    pub open spec fn wf(&self) -> bool {
        self@.wf()
    }

    /// A manager for the node `id`, reachable at `address` and `port`, that
    /// starts at time `now`. The node is the only known member; it is joining
    /// and there is no leader.
    pub fn for_node(id: String, address: String, port: u16, now: u64) -> (manager: Self)
        ensures
            manager.wf(),
            manager@.self_id == id@,
            manager@.leader_id is None,
            manager@.nodes == seq![
                (NodeView {
                    id: id@,
                    address: address@,
                    port: port,
                    is_leader: false,
                    status: NodeStatus::Joining,
                    last_heartbeat: now,
                }),
            ],
    {
        let self_node = NodeInfo {
            id: id,
            address: address,
            port: port,
            is_leader: false,
            status: NodeStatus::Joining,
            last_heartbeat: now,
        };
        let mut nodes: Vec<NodeInfo> = Vec::new();
        nodes.push(self_node.clone());
        let manager = ClusterManager { nodes: nodes, self_node: self_node, leader_id: None };
        assert(manager@.nodes =~= seq![self_node@]);
        manager
    }

    /// A manager for a node with a fresh random identifier, listening on
    /// `localhost:8080`, that starts now.
    pub fn new() -> (manager: Self)
        ensures
            manager.wf(),
            manager@.leader_id is None,
            manager@.nodes.len() == 1,
            manager@.nodes[0].id == manager@.self_id,
            manager@.self_id.len() == 36,
            manager@.nodes[0].address == "localhost"@,
            manager@.nodes[0].port == 8080,
            !manager@.nodes[0].is_leader,
            manager@.nodes[0].status == NodeStatus::Joining,
    {
        let id = fresh_node_id();
        let now = now_seconds();
        Self::for_node(id, "localhost".to_string(), 8080, now)
    }

    /// Runs an election over nodes whose identifiers are unique.
    fn elect(&mut self)
        requires
            ids_unique(old(self)@.nodes),
        ensures
            final(self).wf(),
            final(self)@.leader_is_healthy(),
            elected(old(self)@, final(self)@),
    {
        let best = smallest_healthy(&self.nodes);
        let leader: Option<String> = match best {
            Some(b) => Some(self.nodes[b].id.clone()),
            None => None,
        };
        set_leader_flags(&mut self.nodes, &leader);
        self.leader_id = leader;
        proof {
            lemma_election_wf(old(self)@.nodes, self@.leader_id, self@.self_id);
        }
    }

    /// Elects a leader: the healthy node with the smallest identifier. Exactly
    /// that node carries the leader flag afterwards. Where no node is healthy
    /// there is no leader and no node carries the flag.
    pub fn elect_leader(&mut self) -> (res: Result<(), CoordinationError>)
        requires
            old(self).wf(),
        ensures
            res is Ok,
            final(self).wf(),
            final(self)@.leader_is_healthy(),
            elected(old(self)@, final(self)@),
    {
        self.elect();
        Ok(())
    }

    /// Removes the node `node_id`, if it is known. If it was the leader, a new
    /// election runs before the call returns.
    pub fn remove_node(&mut self, node_id: &str) -> (res: Result<(), CoordinationError>)
        requires
            old(self).wf(),
        ensures
            res is Ok,
            final(self).wf(),
            node_removed(old(self)@, final(self)@, node_id@),
            old(self)@.leader_is_healthy() ==> final(self)@.leader_is_healthy(),
    {
        let ghost before = self@;
        let mut kept: Vec<NodeInfo> = Vec::new();
        let mut i: usize = 0;
        proof {
            lemma_filter_take_zero(before.nodes, |n: NodeView| n.id != node_id@);
        }
        while i < self.nodes.len()
            invariant
                i <= self.nodes.len(),
                self@ == before,
                node_views(kept@) =~= without_id(before.nodes.take(i as int), node_id@),
            decreases self.nodes.len() - i,
        {
            proof {
                lemma_filter_take_step(before.nodes, |n: NodeView| n.id != node_id@, i as int);
            }
            if !str_same(self.nodes[i].id.as_str(), node_id) {
                kept.push(self.nodes[i].clone());
            }
            i += 1;
        }
        proof {
            assert(before.nodes.take(i as int) =~= before.nodes);
            lemma_without_id(before.nodes, node_id@);
        }
        self.nodes = kept;
        let was_leader = match &self.leader_id {
            Some(leader) => str_same(leader.as_str(), node_id),
            None => false,
        };
        if was_leader {
            self.elect();
        } else {
            proof {
                lemma_without_id_keeps_flags(before, node_id@);
            }
        }
        Ok(())
    }

    /// The healthy nodes, in the order in which they joined.
    pub fn get_healthy_nodes(&self) -> (nodes: Vec<NodeInfo>)
        ensures
            node_views(nodes@) == healthy_nodes(self@.nodes),
    {
        let ghost all = self@.nodes;
        let mut out: Vec<NodeInfo> = Vec::new();
        let mut i: usize = 0;
        proof {
            lemma_filter_take_zero(all, |n: NodeView| n.status == NodeStatus::Healthy);
        }
        while i < self.nodes.len()
            invariant
                i <= self.nodes.len(),
                all == node_views(self.nodes@),
                node_views(out@) =~= healthy_nodes(all.take(i as int)),
            decreases self.nodes.len() - i,
        {
            proof {
                lemma_filter_take_step(all, |n: NodeView| n.status == NodeStatus::Healthy, i as int);
            }
            if self.nodes[i].status == NodeStatus::Healthy {
                out.push(self.nodes[i].clone());
            }
            i += 1;
        }
        assert(all.take(i as int) =~= all);
        out
    }

    /// The record of the current leader, if there is a leader.
    pub fn get_leader(&self) -> (leader: Option<NodeInfo>)
        ensures
            match leader {
                Some(node) => self@.leader_id == Some(node@.id) && self@.nodes.contains(node@),
                None => self@.leader_id is None || !has_id(self@.nodes, self@.leader_id->0),
            },
    {
        match &self.leader_id {
            Some(id) => match position_of(&self.nodes, id.as_str()) {
                Some(i) => {
                    assert(self@.nodes[i as int] == self.nodes[i as int]@);
                    Some(self.nodes[i].clone())
                },
                None => {
                    assert forall|j: int| 0 <= j < self@.nodes.len() implies self@.nodes[j].id
                        != id@ by {
                        assert(self@.nodes[j] == self.nodes[j]@);
                    }
                    None
                },
            },
            None => None,
        }
    }

    /// Records at time `now` that the node `node_id` has the status `status`.
    /// Fails with `UnknownNode`, and changes nothing, if no such node is known.
    pub fn update_node_status_at(&mut self, node_id: &str, status: NodeStatus, now: u64) -> (res:
        Result<(), CoordinationError>)
        requires
            old(self).wf(),
        ensures
            final(self).wf(),
            has_id(old(self)@.nodes, node_id@) ==> res is Ok && status_reported(
                old(self)@,
                final(self)@,
                node_id@,
                status,
                now,
            ),
            !has_id(old(self)@.nodes, node_id@) ==> res == Err::<(), CoordinationError>(
                CoordinationError::UnknownNode,
            ) && final(self)@ == old(self)@,
    {
        let ghost before = self@;
        match position_of(&self.nodes, node_id) {
            Some(i) => {
                self.nodes[i].status = status;
                self.nodes[i].last_heartbeat = now;
                proof {
                    assert(before.nodes[i as int].id == node_id@);
                    assert forall|j: int| 0 <= j < before.nodes.len() implies self@.nodes[j]
                        == report_status(before.nodes[j], node_id@, status, now) by {
                        assert(before.nodes[j] == old(self).nodes@[j]@);
                        assert(self@.nodes[j] == self.nodes@[j]@);
                    }
                    assert(self@.nodes =~= report_statuses(before.nodes, node_id@, status, now));
                    lemma_same_ids_wf(before, self@);
                }
                Ok(())
            },
            None => {
                proof {
                    assert forall|j: int| 0 <= j < before.nodes.len() implies before.nodes[j].id
                        != node_id@ by {
                        assert(before.nodes[j] == self.nodes@[j]@);
                    }
                }
                Err(CoordinationError::UnknownNode)
            },
        }
    }

    /// Records that the node `node_id` has the status `status`, as of now.
    /// Fails with `UnknownNode`, and changes nothing, if no such node is known.
    pub fn update_node_status(&mut self, node_id: &str, status: NodeStatus) -> (res: Result<
        (),
        CoordinationError,
    >)
        requires
            old(self).wf(),
        ensures
            final(self).wf(),
            has_id(old(self)@.nodes, node_id@) ==> res is Ok && exists|now: u64|
                status_reported(old(self)@, final(self)@, node_id@, status, now),
            !has_id(old(self)@.nodes, node_id@) ==> res == Err::<(), CoordinationError>(
                CoordinationError::UnknownNode,
            ) && final(self)@ == old(self)@,
    {
        let now = now_seconds();
        self.update_node_status_at(node_id, status, now)
    }

    /// Records a heartbeat of the manager's own node at time `now`: the node is
    /// healthy and was last heard of at `now`. Fails with `UnknownNode` if the
    /// manager's own node has left the cluster.
    pub fn record_heartbeat(&mut self, now: u64) -> (res: Result<(), CoordinationError>)
        requires
            old(self).wf(),
        ensures
            final(self).wf(),
            has_id(old(self)@.nodes, old(self)@.self_id) ==> res is Ok && status_reported(
                old(self)@,
                final(self)@,
                old(self)@.self_id,
                NodeStatus::Healthy,
                now,
            ),
            !has_id(old(self)@.nodes, old(self)@.self_id) ==> res == Err::<(), CoordinationError>(
                CoordinationError::UnknownNode,
            ) && final(self)@ == old(self)@,
    {
        let id = self.self_node.id.clone();
        self.update_node_status_at(id.as_str(), NodeStatus::Healthy, now)
    }

    /// Records a heartbeat of the manager's own node, as of now. Fails with
    /// `UnknownNode` if the manager's own node has left the cluster.
    pub fn send_heartbeat(&mut self) -> (res: Result<(), CoordinationError>)
        requires
            old(self).wf(),
        ensures
            final(self).wf(),
            has_id(old(self)@.nodes, old(self)@.self_id) ==> res is Ok && exists|now: u64|
                status_reported(
                    old(self)@,
                    final(self)@,
                    old(self)@.self_id,
                    NodeStatus::Healthy,
                    now,
                ),
            !has_id(old(self)@.nodes, old(self)@.self_id) ==> res == Err::<(), CoordinationError>(
                CoordinationError::UnknownNode,
            ) && final(self)@ == old(self)@,
    {
        let now = now_seconds();
        self.record_heartbeat(now)
    }

    /// One pass of the failure detector at time `now`. Every node but the
    /// manager's own whose last heartbeat is more than
    /// `STALENESS_THRESHOLD_SECS` seconds old becomes unhealthy; no other status
    /// changes. If that leaves the leader unhealthy, a new election runs.
    pub fn check_node_health_at(&mut self, now: u64) -> (res: Result<(), CoordinationError>)
        requires
            old(self).wf(),
        ensures
            res is Ok,
            final(self).wf(),
            health_checked(old(self)@, final(self)@, now),
            old(self)@.leader_is_healthy() ==> final(self)@.leader_is_healthy(),
    {
        let ghost before = self@;
        let mut i: usize = 0;
        while i < self.nodes.len()
            invariant
                i <= self.nodes.len(),
                self.nodes.len() == old(self).nodes.len(),
                self.self_node == old(self).self_node,
                self.leader_id == old(self).leader_id,
                before.self_id == self.self_node.id@,
                forall|j: int|
                    0 <= j < i ==> self.nodes[j]@ == mark_stale(
                        old(self).nodes[j]@,
                        before.self_id,
                        now,
                    ),
                forall|j: int| i <= j < self.nodes.len() ==> self.nodes[j]@ == old(self).nodes[j]@,
            decreases self.nodes.len() - i,
        {
            if !str_same(self.nodes[i].id.as_str(), self.self_node.id.as_str()) && heartbeat_is_stale(
                now,
                self.nodes[i].last_heartbeat,
            ) {
                self.nodes[i].status = NodeStatus::Unhealthy;
            }
            i += 1;
        }
        let ghost marked = self@;
        proof {
            assert(marked.nodes =~= mark_all_stale(before.nodes, before.self_id, now));
            lemma_same_ids_wf(before, marked);
        }
        let leader_down = match &self.leader_id {
            Some(id) => match position_of(&self.nodes, id.as_str()) {
                Some(k) => {
                    assert(marked.nodes[k as int] == self.nodes[k as int]@);
                    self.nodes[k].status == NodeStatus::Unhealthy
                },
                None => {
                    assert forall|j: int| 0 <= j < marked.nodes.len() implies marked.nodes[j].id
                        != id@ by {
                        assert(marked.nodes[j] == self.nodes@[j]@);
                    }
                    false
                },
            },
            None => false,
        };
        assert(leader_down == leader_unhealthy(marked.nodes, marked.leader_id));
        if leader_down {
            self.elect();
        } else {
            proof {
                if before.leader_is_healthy() {
                    assert forall|j: int|
                        0 <= j < marked.nodes.len() && marked.leader_id == Some(
                            marked.nodes[j].id,
                        ) implies (#[trigger] marked.nodes[j]).status == NodeStatus::Healthy by {
                        assert(before.nodes[j].status == NodeStatus::Healthy);
                    }
                }
            }
        }
        Ok(())
    }

    /// One pass of the failure detector, as of now.
    pub fn check_node_health(&mut self) -> (res: Result<(), CoordinationError>)
        requires
            old(self).wf(),
        ensures
            res is Ok,
            final(self).wf(),
            exists|now: u64| health_checked(old(self)@, final(self)@, now),
            old(self)@.leader_is_healthy() ==> final(self)@.leader_is_healthy(),
    {
        let now = now_seconds();
        self.check_node_health_at(now)
    }

    /// Whether the node that this manager runs on is the leader.
    pub fn is_leader(&self) -> (leads: bool)
        ensures
            leads == (self@.leader_id == Some(self@.self_id)),
    {
        match &self.leader_id {
            Some(id) => str_same(id.as_str(), self.self_node.id.as_str()),
            None => false,
        }
    }

    /// The identifier of the node that this manager runs on.
    pub fn self_id(&self) -> (id: String)
        ensures
            id@ == self@.self_id,
    {
        self.self_node.id.clone()
    }

    /// All known nodes, in the order in which they joined.
    pub fn get_nodes(&self) -> (nodes: Vec<NodeInfo>)
        ensures
            node_views(nodes@) == self@.nodes,
    {
        let mut out: Vec<NodeInfo> = Vec::new();
        let mut i: usize = 0;
        while i < self.nodes.len()
            invariant
                i <= self.nodes.len(),
                out@ == self.nodes@.take(i as int),
            decreases self.nodes.len() - i,
        {
            out.push(self.nodes[i].clone());
            assert(self.nodes@.take(i + 1) =~= self.nodes@.take(i as int).push(self.nodes@[i as int]));
            i += 1;
        }
        assert(self.nodes@.take(i as int) =~= self.nodes@);
        out
    }

    /// Registers `node` unless a node with its identifier is already known, in
    /// which case nothing changes. A new node is stored without the leader flag:
    /// only an election makes a leader.
    pub fn add_node(&mut self, node: NodeInfo) -> (res: Result<(), CoordinationError>)
        requires
            old(self).wf(),
        ensures
            res is Ok,
            final(self).wf(),
            node_joined(old(self)@, final(self)@, node@),
            old(self)@.leader_is_healthy() ==> final(self)@.leader_is_healthy(),
    {
        match position_of(&self.nodes, node.id.as_str()) {
            Some(i) => {
                assert(self@.nodes[i as int].id == node.id@);
            },
            None => {
                let ghost before = self@;
                let entry = NodeInfo {
                    id: node.id,
                    address: node.address,
                    port: node.port,
                    is_leader: false,
                    status: node.status,
                    last_heartbeat: node.last_heartbeat,
                };
                self.nodes.push(entry);
                proof {
                    assert(self@.nodes =~= before.nodes.push(flag_leader(node@, None)));
                    assert forall|j: int| 0 <= j < before.nodes.len() implies before.nodes[j].id
                        != node.id@ by {
                        assert(before.nodes[j] == old(self).nodes@[j]@);
                    }
                    assert(!has_id(before.nodes, node.id@));
                    assert(has_id(before.nodes, before.leader_id->0) ==> has_id(
                        self@.nodes,
                        before.leader_id->0,
                    )) by {
                        if has_id(before.nodes, before.leader_id->0) {
                            let k = choose|k: int|
                                0 <= k < before.nodes.len() && before.nodes[k].id
                                    == before.leader_id->0;
                            assert(self@.nodes[k].id == before.leader_id->0);
                        }
                    }
                }
            },
        }
        Ok(())
    }
}

} // verus!
