//! Routing of keys and collections to nodes.
//!
//! A key is hashed into one of a fixed number of slots. A slot belongs to the
//! healthy node that ranks highest for it, where each node's rank for a slot is
//! a hash of the node's identifier and the slot (rendezvous hashing). A node
//! that joins or leaves therefore takes or gives up only its own slots.

use vstd::prelude::*;
use vstd::utf8::*;
use vstd::string::*;
use vstd::arithmetic::div_mod::{lemma_mod_bound, lemma_mod_twice};
use crate::cluster::{node_views, some_healthy, NodeInfo, NodeStatus, NodeView};
use crate::error::CoordinationError;
use crate::metadata::CollectionMetadata;
use crate::text::{
    id_less, lemma_id_less_irreflexive, lemma_id_less_total, lemma_id_less_transitive,
    lemma_id_less_asymmetric, str_less, str_same,
};

verus! {

/// The number of slots of a ring made by `ShardingStrategy::new`.
pub const DEFAULT_RING_SLOTS: u64 = 1024;

/// The offset basis of the 64-bit FNV-1a hash.
pub const FNV_OFFSET_BASIS: u64 = 0xcbf2_9ce4_8422_2325;

/// The prime of the 64-bit FNV-1a hash.
pub const FNV_PRIME: u64 = 0x0000_0100_0000_01b3;

/// The multiplier that spreads a node's hash over the slots.
pub const WEIGHT_MULTIPLIER: u64 = 0x9e37_79b9_7f4a_7c15;

/// One step of FNV-1a: mixes the byte `byte` into the hash `hash`.
pub open spec fn fnv1a_step(hash: u64, byte: u8) -> u64 {
    (hash ^ (byte as u64)).wrapping_mul(FNV_PRIME)
}

/// The 64-bit FNV-1a hash of `bytes`.
pub open spec fn fnv1a(bytes: Seq<u8>) -> u64
    decreases bytes.len(),
{
    if bytes.len() == 0 {
        FNV_OFFSET_BASIS
    } else {
        fnv1a_step(fnv1a(bytes.drop_last()), bytes.last())
    }
}

/// The hash of a string: FNV-1a of its UTF-8 encoding.
pub open spec fn text_hash(text: Seq<char>) -> u64 {
    fnv1a(encode_utf8(text))
}

/// The slot of the key `key` on a ring of `ring_slots` slots.
pub open spec fn key_slot(key: Seq<char>, ring_slots: u64) -> u64
    recommends
        ring_slots > 0,
{
    text_hash(key) % ring_slots
}

/// The slot of shard number `shard` of the collection `collection` on a ring of
/// `ring_slots` slots: the shards of a collection follow each other round the
/// ring, starting at the slot of the collection's name.
pub open spec fn shard_slot(collection: Seq<char>, shard: int, ring_slots: u64) -> u64
    recommends
        ring_slots > 0,
        shard >= 0,
{
    let start = (text_hash(collection) % ring_slots) as int;
    let step = shard % (ring_slots as int);
    ((start + step) % (ring_slots as int)) as u64
}

/// The rank of the node `id` for the slot `slot`.
#[verifier::opaque]
pub open spec fn node_weight(id: Seq<char>, slot: u64) -> u64 {
    let mixed = (text_hash(id) ^ slot).wrapping_mul(WEIGHT_MULTIPLIER);
    mixed ^ (mixed >> 32)
}

/// The node `a` ranks strictly before the node `b` for `slot`: its weight is
/// greater, or the weights are equal and its identifier is smaller.
pub open spec fn outranks(a: Seq<char>, b: Seq<char>, slot: u64) -> bool {
    node_weight(a, slot) > node_weight(b, slot) || (node_weight(a, slot) == node_weight(b, slot)
        && id_less(a, b))
}

/// `id` belongs to a healthy node of `nodes` that no healthy node outranks for
/// `slot`.
pub open spec fn is_slot_owner(nodes: Seq<NodeView>, slot: u64, id: Seq<char>) -> bool {
    &&& exists|i: int|
        0 <= i < nodes.len() && nodes[i].id == id && nodes[i].status == NodeStatus::Healthy
    &&& forall|j: int|
        0 <= j < nodes.len() && nodes[j].status == NodeStatus::Healthy ==> !outranks(
            #[trigger] nodes[j].id,
            id,
            slot,
        )
}

/// `id` ranks strictly after `limit` for `slot`, or there is no limit.
pub open spec fn is_below(limit: Option<Seq<char>>, id: Seq<char>, slot: u64) -> bool {
    match limit {
        Some(limit) => outranks(limit, id, slot),
        None => true,
    }
}

/// The value of an optional string.
pub open spec fn text_view(text: Option<&str>) -> Option<Seq<char>> {
    match text {
        Some(text) => Some(text@),
        None => None,
    }
}

/// `id` belongs to a healthy node of `nodes`.
pub open spec fn is_healthy_id(nodes: Seq<NodeView>, id: Seq<char>) -> bool {
    exists|i: int|
        0 <= i < nodes.len() && nodes[i].id == id && nodes[i].status == NodeStatus::Healthy
}

/// `ids` names the healthy nodes of `nodes` that rank highest for `slot`, best
/// first and each once: `count` of them, or all where fewer are healthy.
pub open spec fn is_replica_set(
    nodes: Seq<NodeView>,
    slot: u64,
    count: usize,
    ids: Seq<Seq<char>>,
) -> bool {
    &&& ids.len() <= count
    &&& forall|k: int| 0 <= k < ids.len() ==> is_healthy_id(nodes, #[trigger] ids[k])
    &&& forall|a: int, b: int| 0 <= a < b < ids.len() ==> outranks(ids[a], ids[b], slot)
    &&& forall|j: int, k: int|
        0 <= j < nodes.len() && 0 <= k < ids.len() && nodes[j].status == NodeStatus::Healthy
            && !ids.contains(nodes[j].id) ==> outranks(
            #[trigger] ids[k],
            #[trigger] nodes[j].id,
            slot,
        )
    &&& ids.len() == count || forall|j: int|
        0 <= j < nodes.len() && nodes[j].status == NodeStatus::Healthy ==> ids.contains(
            #[trigger] nodes[j].id,
        )
}

/// No node outranks itself.
pub proof fn lemma_outranks_irreflexive(a: Seq<char>, slot: u64)
    ensures
        !outranks(a, a, slot),
{
    lemma_id_less_irreflexive(a);
}

/// Of two nodes at most one outranks the other.
pub proof fn lemma_outranks_asymmetric(a: Seq<char>, b: Seq<char>, slot: u64)
    requires
        outranks(a, b, slot),
    ensures
        !outranks(b, a, slot),
{
    if node_weight(a, slot) == node_weight(b, slot) {
        lemma_id_less_asymmetric(a, b);
    }
}

/// Rank is transitive.
pub proof fn lemma_outranks_transitive(a: Seq<char>, b: Seq<char>, c: Seq<char>, slot: u64)
    requires
        outranks(a, b, slot),
        outranks(b, c, slot),
    ensures
        outranks(a, c, slot),
{
    if node_weight(a, slot) == node_weight(b, slot) && node_weight(b, slot) == node_weight(c, slot) {
        lemma_id_less_transitive(a, b, c);
    }
}

/// Two nodes of which neither outranks the other are the same node.
pub proof fn lemma_outranks_total(a: Seq<char>, b: Seq<char>, slot: u64)
    requires
        !outranks(a, b, slot),
        !outranks(b, a, slot),
    ensures
        a == b,
{
    lemma_id_less_total(a, b);
}

/// `id` belongs to the healthy node of `nodes` that ranks highest for `slot`
/// among those below `below`.
pub open spec fn is_next_in_rank(
    nodes: Seq<NodeView>,
    slot: u64,
    below: Option<Seq<char>>,
    id: Seq<char>,
) -> bool {
    &&& is_healthy_id(nodes, id)
    &&& is_below(below, id, slot)
    &&& forall|j: int|
        0 <= j < nodes.len() && nodes[j].status == NodeStatus::Healthy && is_below(
            below,
            nodes[j].id,
            slot,
        ) ==> !outranks(#[trigger] nodes[j].id, id, slot)
}

/// No healthy node of `nodes` ranks below `below` for `slot`.
pub open spec fn none_below(nodes: Seq<NodeView>, slot: u64, below: Option<Seq<char>>) -> bool {
    forall|j: int|
        0 <= j < nodes.len() && nodes[j].status == NodeStatus::Healthy ==> !is_below(
            below,
            #[trigger] nodes[j].id,
            slot,
        )
}

/// The last of `ids`, if there is one.
pub open spec fn last_of(ids: Seq<Seq<char>>) -> Option<Seq<char>> {
    if ids.len() == 0 {
        None
    } else {
        Some(ids.last())
    }
}

/// `ids` names the healthy nodes of `nodes` that rank highest for `slot`, best
/// first and each once: every healthy node that it does not name ranks below
/// its last.
pub open spec fn is_rank_prefix(nodes: Seq<NodeView>, slot: u64, ids: Seq<Seq<char>>) -> bool {
    &&& forall|k: int| 0 <= k < ids.len() ==> is_healthy_id(nodes, #[trigger] ids[k])
    &&& forall|a: int, b: int| 0 <= a < b < ids.len() ==> outranks(ids[a], ids[b], slot)
    &&& forall|j: int|
        0 <= j < nodes.len() && nodes[j].status == NodeStatus::Healthy ==> ids.contains(
            #[trigger] nodes[j].id,
        ) || is_below(last_of(ids), nodes[j].id, slot)
}

/// A rank prefix grows by the next node in rank.
proof fn lemma_rank_prefix_grows(
    nodes: Seq<NodeView>,
    slot: u64,
    ids: Seq<Seq<char>>,
    picked: Seq<char>,
)
    requires
        is_rank_prefix(nodes, slot, ids),
        is_next_in_rank(nodes, slot, last_of(ids), picked),
    ensures
        is_rank_prefix(nodes, slot, ids.push(picked)),
{
    let more = ids.push(picked);
    assert forall|k: int| 0 <= k < more.len() implies is_healthy_id(nodes, #[trigger] more[k]) by {
        if k < ids.len() {
            assert(more[k] == ids[k]);
        }
    }
    assert forall|a: int, b: int| 0 <= a < b < more.len() implies outranks(
        more[a],
        more[b],
        slot,
    ) by {
        if b == ids.len() {
            assert(outranks(ids.last(), picked, slot));
            if a < ids.len() - 1 {
                assert(outranks(ids[a], ids.last(), slot));
                lemma_outranks_transitive(ids[a], ids.last(), picked, slot);
            }
        } else {
            assert(more[a] == ids[a]);
            assert(more[b] == ids[b]);
        }
    }
    assert forall|j: int|
        0 <= j < nodes.len() && nodes[j].status == NodeStatus::Healthy implies more.contains(
        #[trigger] nodes[j].id,
    ) || is_below(last_of(more), nodes[j].id, slot) by {
        let other = nodes[j].id;
        if ids.contains(other) {
            let k = choose|k: int| 0 <= k < ids.len() && ids[k] == other;
            assert(more[k] == other);
        } else if other == picked {
            assert(more[ids.len() as int] == other);
        } else {
            assert(is_below(last_of(ids), other, slot));
            assert(!outranks(other, picked, slot));
            if !outranks(picked, other, slot) {
                lemma_outranks_total(other, picked, slot);
            }
        }
    }
}

/// A rank prefix that holds `count` nodes, or below which no healthy node
/// ranks, is a replica set.
proof fn lemma_rank_prefix_is_replica_set(
    nodes: Seq<NodeView>,
    slot: u64,
    count: usize,
    ids: Seq<Seq<char>>,
)
    requires
        is_rank_prefix(nodes, slot, ids),
        ids.len() <= count,
        ids.len() == count || (none_below(nodes, slot, last_of(ids)) && (ids.len() > 0
            || !some_healthy(nodes))),
    ensures
        is_replica_set(nodes, slot, count, ids),
{
    assert forall|j: int, k: int|
        0 <= j < nodes.len() && 0 <= k < ids.len() && nodes[j].status == NodeStatus::Healthy
            && !ids.contains(nodes[j].id) implies outranks(
        #[trigger] ids[k],
        #[trigger] nodes[j].id,
        slot,
    ) by {
        assert(outranks(ids.last(), nodes[j].id, slot));
        if k < ids.len() - 1 {
            assert(outranks(ids[k], ids.last(), slot));
            lemma_outranks_transitive(ids[k], ids.last(), nodes[j].id, slot);
        }
    }
    if ids.len() != count {
        assert forall|j: int|
            0 <= j < nodes.len() && nodes[j].status == NodeStatus::Healthy implies ids.contains(
            #[trigger] nodes[j].id,
        ) by {
            if ids.len() == 0 {
                assert(some_healthy(nodes));
            }
        }
    }
}

/// A replica set names no node twice, and the node it names first, if any, owns
/// the slot.
pub proof fn lemma_replica_set_starts_with_owner(
    nodes: Seq<NodeView>,
    slot: u64,
    count: usize,
    ids: Seq<Seq<char>>,
)
    requires
        is_replica_set(nodes, slot, count, ids),
    ensures
        ids.no_duplicates(),
        ids.len() > 0 ==> is_slot_owner(nodes, slot, ids[0]),
        count > 0 && some_healthy(nodes) ==> ids.len() > 0,
{
    assert forall|a: int, b: int| 0 <= a < ids.len() && 0 <= b < ids.len() && a != b implies ids[a]
        != ids[b] by {
        lemma_outranks_irreflexive(ids[a], slot);
        if a < b {
            assert(outranks(ids[a], ids[b], slot));
        } else {
            assert(outranks(ids[b], ids[a], slot));
        }
    }
    if ids.len() > 0 {
        assert(is_healthy_id(nodes, ids[0]));
        assert forall|j: int|
            0 <= j < nodes.len() && nodes[j].status == NodeStatus::Healthy implies !outranks(
            #[trigger] nodes[j].id,
            ids[0],
            slot,
        ) by {
            if ids.contains(nodes[j].id) {
                let k = choose|k: int| 0 <= k < ids.len() && ids[k] == nodes[j].id;
                if k > 0 {
                    assert(outranks(ids[0], ids[k], slot));
                    lemma_outranks_asymmetric(ids[0], ids[k], slot);
                } else {
                    lemma_outranks_irreflexive(ids[0], slot);
                }
            } else {
                assert(outranks(ids[0], nodes[j].id, slot));
                lemma_outranks_asymmetric(ids[0], nodes[j].id, slot);
            }
        }
    }
    if count > 0 && some_healthy(nodes) && ids.len() == 0 {
        let i = choose|i: int| 0 <= i < nodes.len() && nodes[i].status == NodeStatus::Healthy;
        assert(ids.contains(nodes[i].id));
    }
}

/// `id` owns the slot of one of the first `shards` shards of `collection`.
pub open spec fn owns_shard_of(
    nodes: Seq<NodeView>,
    collection: Seq<char>,
    shards: int,
    ring_slots: u64,
    id: Seq<char>,
) -> bool {
    exists|shard: int|
        0 <= shard < shards && is_slot_owner(
            nodes,
            #[trigger] shard_slot(collection, shard, ring_slots),
            id,
        )
}

/// The values of a sequence of strings, in order.
pub open spec fn string_views(strings: Seq<String>) -> Seq<Seq<char>> {
    strings.map_values(|s: String| s@)
}

/// A slot has one owner: two identifiers that own the same slot over the same
/// nodes are the same. Routing is therefore a function of the nodes and the key.
pub proof fn lemma_slot_owner_unique(nodes: Seq<NodeView>, slot: u64, first: Seq<char>, second: Seq<char>)
    requires
        is_slot_owner(nodes, slot, first),
        is_slot_owner(nodes, slot, second),
    ensures
        first == second,
{
    let i = choose|i: int|
        0 <= i < nodes.len() && nodes[i].id == first && nodes[i].status == NodeStatus::Healthy;
    let j = choose|j: int|
        0 <= j < nodes.len() && nodes[j].id == second && nodes[j].status == NodeStatus::Healthy;
    assert(!outranks(nodes[i].id, second, slot));
    assert(!outranks(nodes[j].id, first, slot));
    lemma_id_less_total(first, second);
}

/// The owner of a slot keeps it when other nodes leave or fall ill: if `id`
/// owns `slot` over `nodes`, and every healthy node of `fewer` is a healthy node
/// of `nodes`, and `id` is still healthy in `fewer`, then `id` owns `slot` over
/// `fewer`.
pub proof fn lemma_owner_survives_departures(
    nodes: Seq<NodeView>,
    fewer: Seq<NodeView>,
    slot: u64,
    id: Seq<char>,
)
    requires
        is_slot_owner(nodes, slot, id),
        forall|j: int|
            0 <= j < fewer.len() && (#[trigger] fewer[j]).status == NodeStatus::Healthy ==> exists|
                i: int,
            |
                0 <= i < nodes.len() && (#[trigger] nodes[i]).id == fewer[j].id && nodes[i].status
                    == NodeStatus::Healthy,
        exists|j: int|
            0 <= j < fewer.len() && fewer[j].id == id && fewer[j].status == NodeStatus::Healthy,
    ensures
        is_slot_owner(fewer, slot, id),
{
    assert forall|j: int|
        0 <= j < fewer.len() && fewer[j].status == NodeStatus::Healthy implies !outranks(
        #[trigger] fewer[j].id,
        id,
        slot,
    ) by {
        let i = choose|i: int|
            0 <= i < nodes.len() && (#[trigger] nodes[i]).id == fewer[j].id && nodes[i].status
                == NodeStatus::Healthy;
        assert(!outranks(nodes[i].id, id, slot));
    }
}

/// When a node joins, a slot stays with its owner or goes to the newcomer.
pub proof fn lemma_owner_after_arrival(
    nodes: Seq<NodeView>,
    newcomer: NodeView,
    slot: u64,
    before: Seq<char>,
    after: Seq<char>,
)
    requires
        is_slot_owner(nodes, slot, before),
        is_slot_owner(nodes.push(newcomer), slot, after),
    ensures
        after == before || after == newcomer.id,
{
    let more = nodes.push(newcomer);
    if after != newcomer.id {
        let i = choose|i: int|
            0 <= i < more.len() && more[i].id == after && more[i].status == NodeStatus::Healthy;
        assert(i < nodes.len());
        assert(nodes[i].id == after);
        assert forall|j: int|
            0 <= j < nodes.len() && nodes[j].status == NodeStatus::Healthy implies !outranks(
            #[trigger] nodes[j].id,
            after,
            slot,
        ) by {
            assert(more[j] == nodes[j]);
            assert(!outranks(more[j].id, after, slot));
        }
        lemma_slot_owner_unique(nodes, slot, before, after);
    }
}

/// The shards of a collection repeat round the ring: shard `shard` has the
/// slot of shard `shard % ring_slots`.
pub proof fn lemma_shard_slot_periodic(collection: Seq<char>, shard: int, ring_slots: u64)
    requires
        ring_slots > 0,
    ensures
        shard_slot(collection, shard, ring_slots) == shard_slot(
            collection,
            shard % (ring_slots as int),
            ring_slots,
        ),
{
    lemma_mod_twice(shard, ring_slots as int);
}

/// The owners of the first `shards + 1` shards are the owners of the first
/// `shards` shards and the owner of shard number `shards`.
proof fn lemma_owns_shard_step(
    nodes: Seq<NodeView>,
    collection: Seq<char>,
    shards: int,
    ring_slots: u64,
    id: Seq<char>,
)
    requires
        shards >= 0,
    ensures
        owns_shard_of(nodes, collection, shards + 1, ring_slots, id) <==> (owns_shard_of(
            nodes,
            collection,
            shards,
            ring_slots,
            id,
        ) || is_slot_owner(nodes, shard_slot(collection, shards, ring_slots), id)),
{
    if owns_shard_of(nodes, collection, shards + 1, ring_slots, id) {
        let s = choose|s: int|
            0 <= s < shards + 1 && is_slot_owner(
                nodes,
                #[trigger] shard_slot(collection, s, ring_slots),
                id,
            );
        if s < shards {
            assert(owns_shard_of(nodes, collection, shards, ring_slots, id));
        }
    }
    if owns_shard_of(nodes, collection, shards, ring_slots, id) {
        let s = choose|s: int|
            0 <= s < shards && is_slot_owner(
                nodes,
                #[trigger] shard_slot(collection, s, ring_slots),
                id,
            );
        assert(0 <= s < shards + 1);
    }
    if is_slot_owner(nodes, shard_slot(collection, shards, ring_slots), id) {
        assert(0 <= shards < shards + 1);
    }
}

/// A collection with more shards than the ring has slots has the owners of a
/// collection with as many shards as the ring has slots.
pub proof fn lemma_owns_shard_within_ring(
    nodes: Seq<NodeView>,
    collection: Seq<char>,
    shards: int,
    ring_slots: u64,
    id: Seq<char>,
)
    requires
        ring_slots > 0,
        shards >= ring_slots,
    ensures
        owns_shard_of(nodes, collection, shards, ring_slots, id) <==> owns_shard_of(
            nodes,
            collection,
            ring_slots as int,
            ring_slots,
            id,
        ),
{
    if owns_shard_of(nodes, collection, shards, ring_slots, id) {
        let s = choose|s: int|
            0 <= s < shards && is_slot_owner(
                nodes,
                #[trigger] shard_slot(collection, s, ring_slots),
                id,
            );
        let t = s % (ring_slots as int);
        lemma_mod_bound(s, ring_slots as int);
        lemma_shard_slot_periodic(collection, s, ring_slots);
        assert(is_slot_owner(nodes, shard_slot(collection, t, ring_slots), id));
    }
    if owns_shard_of(nodes, collection, ring_slots as int, ring_slots, id) {
        let s = choose|s: int|
            0 <= s < ring_slots && is_slot_owner(
                nodes,
                #[trigger] shard_slot(collection, s, ring_slots),
                id,
            );
        assert(0 <= s < shards);
    }
}

/// Whether `text` is among `list`.
fn contains_text(list: &Vec<String>, text: &str) -> (found: bool)
    ensures
        found == string_views(list@).contains(text@),
{
    let mut i: usize = 0;
    while i < list.len()
        invariant
            i <= list.len(),
            forall|j: int| 0 <= j < i ==> list[j]@ != text@,
        decreases list.len() - i,
    {
        if str_same(list[i].as_str(), text) {
            assert(string_views(list@)[i as int] == text@);
            return true;
        }
        i += 1;
    }
    assert forall|j: int| 0 <= j < string_views(list@).len() implies string_views(list@)[j]
        != text@ by {
        assert(string_views(list@)[j] == list[j]@);
    }
    false
}

/// The FNV-1a hash of the UTF-8 encoding of `text`.
pub fn hash_text(text: &str) -> (hash: u64)
    ensures
        hash == text_hash(text@),
{
    let bytes = text.as_bytes();
    let mut hash: u64 = FNV_OFFSET_BASIS;
    let mut i: usize = 0;
    while i < bytes.len()
        invariant
            i <= bytes.len(),
            hash == fnv1a(bytes@.take(i as int)),
        decreases bytes.len() - i,
    {
        assert(bytes@.take(i + 1).drop_last() =~= bytes@.take(i as int));
        hash = (hash ^ (bytes[i] as u64)).wrapping_mul(FNV_PRIME);
        i += 1;
    }
    assert(bytes@.take(i as int) =~= bytes@);
    hash
}

/// The rank of the node `id` for the slot `slot`.
pub fn weigh_node(id: &str, slot: u64) -> (weight: u64)
    ensures
        weight == node_weight(id@, slot),
{
    proof {
        reveal(node_weight);
    }
    let mixed = (hash_text(id) ^ slot).wrapping_mul(WEIGHT_MULTIPLIER);
    mixed ^ (mixed >> 32)
}

/// The position in `nodes` of the healthy node that ranks highest for `slot`
/// among those that `below` outranks, or among all if `below` is nothing.
fn next_in_rank(nodes: &Vec<NodeInfo>, slot: u64, below: Option<&str>) -> (best: Option<usize>)
    ensures
        match best {
            Some(b) => b < nodes.len() && is_next_in_rank(
                node_views(nodes@),
                slot,
                text_view(below),
                nodes[b as int].id@,
            ),
            None => none_below(node_views(nodes@), slot, text_view(below)),
        },
{
    let mut best: Option<usize> = None;
    let mut best_weight: u64 = 0;
    let limit_weight: u64 = match below {
        Some(id) => weigh_node(id, slot),
        None => 0,
    };
    let mut i: usize = 0;
    while i < nodes.len()
        invariant
            i <= nodes.len(),
            below is Some ==> limit_weight == node_weight(below->0@, slot),
            match best {
                Some(b) => {
                    &&& b < i
                    &&& nodes[b as int].status == NodeStatus::Healthy
                    &&& best_weight == node_weight(nodes[b as int].id@, slot)
                    &&& is_below(text_view(below), nodes[b as int].id@, slot)
                    &&& forall|j: int|
                        0 <= j < i && nodes[j].status == NodeStatus::Healthy && is_below(
                            text_view(below),
                            nodes[j].id@,
                            slot,
                        ) ==> !outranks(#[trigger] nodes[j].id@, nodes[b as int].id@, slot)
                },
                None => forall|j: int|
                    0 <= j < i && nodes[j].status == NodeStatus::Healthy ==> !is_below(
                        text_view(below),
                        #[trigger] nodes[j].id@,
                        slot,
                    ),
            },
        decreases nodes.len() - i,
    {
        if nodes[i].status == NodeStatus::Healthy {
            let weight = weigh_node(nodes[i].id.as_str(), slot);
            let eligible = match below {
                Some(id) => limit_weight > weight || (limit_weight == weight && str_less(
                    id,
                    nodes[i].id.as_str(),
                )),
                None => true,
            };
            let takes_over = eligible && match best {
                Some(b) => weight > best_weight || (weight == best_weight && str_less(
                    nodes[i].id.as_str(),
                    nodes[b].id.as_str(),
                )),
                None => true,
            };
            if takes_over {
                proof {
                    let cand = nodes[i as int].id@;
                    lemma_outranks_irreflexive(cand, slot);
                    if best is Some {
                        let prev = nodes[best->0 as int].id@;
                        assert forall|j: int|
                            0 <= j < i && nodes[j].status == NodeStatus::Healthy && is_below(
                                text_view(below),
                                nodes[j].id@,
                                slot,
                            ) implies !outranks(#[trigger] nodes[j].id@, cand, slot) by {
                            if outranks(nodes[j].id@, cand, slot) {
                                lemma_outranks_transitive(nodes[j].id@, cand, prev, slot);
                            }
                        }
                    }
                }
                best = Some(i);
                best_weight = weight;
            }
        }
        i += 1;
    }
    proof {
        let views = node_views(nodes@);
        assert forall|j: int| 0 <= j < views.len() implies views[j] == nodes[j]@ by {}
        match best {
            Some(b) => {
                assert(views[b as int].id == nodes[b as int].id@);
                assert forall|j: int|
                    0 <= j < views.len() && views[j].status == NodeStatus::Healthy && is_below(
                        text_view(below),
                        views[j].id,
                        slot,
                    ) implies !outranks(#[trigger] views[j].id, nodes[b as int].id@, slot) by {
                    assert(views[j] == nodes[j]@);
                }
            },
            None => {
                assert forall|j: int|
                    0 <= j < views.len() && views[j].status == NodeStatus::Healthy implies !is_below(
                    text_view(below),
                    #[trigger] views[j].id,
                    slot,
                ) by {
                    assert(views[j] == nodes[j]@);
                }
            },
        }
    }
    best
}

/// The position in `nodes` of the healthy node that owns `slot`.
fn slot_owner(nodes: &Vec<NodeInfo>, slot: u64) -> (best: Option<usize>)
    ensures
        match best {
            Some(b) => b < nodes.len() && is_slot_owner(node_views(nodes@), slot, nodes[b as int].id@),
            None => !some_healthy(node_views(nodes@)),
        },
{
    let best = next_in_rank(nodes, slot, None);
    proof {
        let views = node_views(nodes@);
        if best is None {
            assert forall|j: int| 0 <= j < views.len() implies views[j].status
                != NodeStatus::Healthy by {
                assert(is_below(None, views[j].id, slot));
            }
        }
    }
    best
}

/// Maps keys and collections to the nodes that hold them.
#[derive(Debug)]
pub struct ShardingStrategy {
    ring_slots: u64,
}

impl ShardingStrategy {
    /// The number of slots of the ring.
    pub closed spec fn slots(&self) -> u64 {
        self.ring_slots
    }

    /// The invariant of the strategy: the ring has a slot.
    pub open spec fn wf(&self) -> bool {
        self.slots() > 0
    }

    /// A strategy over a ring of `DEFAULT_RING_SLOTS` slots.
    pub fn new() -> (strategy: Self)
        ensures
            strategy.wf(),
            strategy.slots() == DEFAULT_RING_SLOTS,
    {
        ShardingStrategy { ring_slots: DEFAULT_RING_SLOTS }
    }

    /// A strategy over a ring of `ring_slots` slots, or nothing if `ring_slots`
    /// is zero.
    pub fn with_ring_slots(ring_slots: u64) -> (strategy: Option<Self>)
        ensures
            ring_slots == 0 ==> strategy is None,
            ring_slots > 0 ==> strategy is Some && strategy->0.wf() && strategy->0.slots()
                == ring_slots,
    {
        if ring_slots == 0 {
            None
        } else {
            Some(ShardingStrategy { ring_slots: ring_slots })
        }
    }

    /// The number of slots of the ring.
    pub fn ring_slots(&self) -> (slots: u64)
        ensures
            slots == self.slots(),
    {
        self.ring_slots
    }

    /// The slot of the key `key`.
    pub fn slot_for_key(&self, key: &str) -> (slot: u64)
        requires
            self.wf(),
        ensures
            slot == key_slot(key@, self.slots()),
    {
        hash_text(key) % self.ring_slots
    }

    /// The slot of shard number `shard` of the collection `collection`.
    pub fn slot_for_shard(&self, collection: &str, shard: usize) -> (slot: u64)
        requires
            self.wf(),
        ensures
            slot == shard_slot(collection@, shard as int, self.slots()),
    {
        let start: u128 = (hash_text(collection) % self.ring_slots) as u128;
        let step: u128 = ((shard as u64) % self.ring_slots) as u128;
        ((start + step) % (self.ring_slots as u128)) as u64
    }

    /// The identifiers of the nodes of `nodes` that hold a shard of the
    /// collection `meta`: the owners of the slots of its `shard_count` shards,
    /// each named once. Fails with `NoHealthyNodes` if no node of `nodes` is
    /// healthy.
    pub fn get_shards_for_collection(&self, meta: &CollectionMetadata, nodes: &Vec<NodeInfo>) -> (res:
        Result<Vec<String>, CoordinationError>)
        requires
            self.wf(),
        ensures
            !some_healthy(node_views(nodes@)) ==> res == Err::<Vec<String>, CoordinationError>(
                CoordinationError::NoHealthyNodes,
            ),
            some_healthy(node_views(nodes@)) ==> res is Ok && string_views(
                res->Ok_0@,
            ).no_duplicates() && forall|id: Seq<char>|
                string_views(res->Ok_0@).contains(id) <==> owns_shard_of(
                    node_views(nodes@),
                    meta.name@,
                    meta.shard_count as int,
                    self.slots(),
                    id,
                ),
    {
        let ghost views = node_views(nodes@);
        let ghost name = meta.name@;
        if slot_owner(nodes, 0).is_none() {
            return Err(CoordinationError::NoHealthyNodes);
        }
        let limit: u64 = if (meta.shard_count as u64) < self.ring_slots {
            meta.shard_count as u64
        } else {
            self.ring_slots
        };
        let mut out: Vec<String> = Vec::new();
        let mut shard: u64 = 0;
        assert(string_views(out@) =~= Seq::<Seq<char>>::empty());
        while shard < limit
            invariant
                self.wf(),
                shard <= limit,
                limit <= meta.shard_count,
                views == node_views(nodes@),
                name == meta.name@,
                some_healthy(views),
                string_views(out@).no_duplicates(),
                forall|id: Seq<char>|
                    string_views(out@).contains(id) <==> owns_shard_of(
                        views,
                        name,
                        shard as int,
                        self.slots(),
                        id,
                    ),
            decreases limit - shard,
        {
            let slot = self.slot_for_shard(meta.name.as_str(), shard as usize);
            let ghost before = string_views(out@);
            match slot_owner(nodes, slot) {
                Some(b) => {
                    let ghost owner = nodes[b as int].id@;
                    if !contains_text(&out, nodes[b].id.as_str()) {
                        out.push(nodes[b].id.clone());
                        assert(string_views(out@) =~= before.push(owner));
                    }
                    proof {
                        let after = string_views(out@);
                        assert forall|id: Seq<char>| after.contains(id) <==> owns_shard_of(
                            views,
                            name,
                            shard + 1,
                            self.slots(),
                            id,
                        ) by {
                            lemma_owns_shard_step(views, name, shard as int, self.slots(), id);
                            if is_slot_owner(views, slot, id) {
                                lemma_slot_owner_unique(views, slot, owner, id);
                            }
                            if after.len() > before.len() {
                                assert(after.last() == owner);
                                if before.contains(id) {
                                    let k = choose|k: int| 0 <= k < before.len() && before[k] == id;
                                    assert(after[k] == id);
                                }
                                if after.contains(id) && id != owner {
                                    let k = choose|k: int| 0 <= k < after.len() && after[k] == id;
                                    assert(before[k] == id);
                                }
                            }
                        }
                    }
                },
                None => {
                    assert(false);
                },
            }
            shard += 1;
        }
        proof {
            assert forall|id: Seq<char>| string_views(out@).contains(id) <==> owns_shard_of(
                views,
                name,
                meta.shard_count as int,
                self.slots(),
                id,
            ) by {
                if meta.shard_count >= self.slots() {
                    lemma_owns_shard_within_ring(
                        views,
                        name,
                        meta.shard_count as int,
                        self.slots(),
                        id,
                    );
                }
            }
        }
        Ok(out)
    }

    /// The identifiers of the nodes of `nodes` that may answer for shard number
    /// `shard` of the collection `meta`: the `replica_count` healthy nodes that
    /// rank highest for the slot of the shard, best first, or all healthy nodes
    /// where there are fewer. The first of them is the owner of the slot. Fails
    /// with `NoHealthyNodes` if no node of `nodes` is healthy.
    pub fn get_replicas_for_shard(
        &self,
        meta: &CollectionMetadata,
        shard: usize,
        nodes: &Vec<NodeInfo>,
    ) -> (res: Result<Vec<String>, CoordinationError>)
        requires
            self.wf(),
        ensures
            !some_healthy(node_views(nodes@)) ==> res == Err::<Vec<String>, CoordinationError>(
                CoordinationError::NoHealthyNodes,
            ),
            some_healthy(node_views(nodes@)) ==> res is Ok && is_replica_set(
                node_views(nodes@),
                shard_slot(meta.name@, shard as int, self.slots()),
                meta.replica_count,
                string_views(res->Ok_0@),
            ),
    {
        let ghost views = node_views(nodes@);
        let slot = self.slot_for_shard(meta.name.as_str(), shard);
        if slot_owner(nodes, slot).is_none() {
            return Err(CoordinationError::NoHealthyNodes);
        }
        let count = meta.replica_count;
        let mut out: Vec<String> = Vec::new();
        assert(string_views(out@) =~= Seq::<Seq<char>>::empty());
        while out.len() < count
            invariant
                self.wf(),
                out.len() <= count,
                count == meta.replica_count,
                views == node_views(nodes@),
                slot == shard_slot(meta.name@, shard as int, self.slots()),
                some_healthy(views),
                is_rank_prefix(views, slot, string_views(out@)),
            decreases count - out.len(),
        {
            let ghost before = string_views(out@);
            let found = if out.len() == 0 {
                next_in_rank(nodes, slot, None)
            } else {
                assert(before.last() == out[out.len() - 1]@);
                next_in_rank(nodes, slot, Some(out[out.len() - 1].as_str()))
            };
            match found {
                Some(b) => {
                    out.push(nodes[b].id.clone());
                    proof {
                        assert(string_views(out@) =~= before.push(nodes[b as int].id@));
                        lemma_rank_prefix_grows(views, slot, before, nodes[b as int].id@);
                    }
                },
                None => {
                    proof {
                        if before.len() == 0 {
                            let i = choose|i: int|
                                0 <= i < views.len() && views[i].status == NodeStatus::Healthy;
                            assert(is_below(None, views[i].id, slot));
                        }
                        lemma_rank_prefix_is_replica_set(views, slot, count, before);
                    }
                    return Ok(out);
                },
            }
        }
        proof {
            lemma_rank_prefix_is_replica_set(views, slot, count, string_views(out@));
        }
        Ok(out)
    }

    /// The identifier of the node of `nodes` that holds the key `key`: the
    /// owner of the key's slot. Fails with `NoHealthyNodes` if no node of
    /// `nodes` is healthy.
    pub fn get_node_for_key(&self, key: &str, nodes: &Vec<NodeInfo>) -> (res: Result<
        String,
        CoordinationError,
    >)
        requires
            self.wf(),
        ensures
            !some_healthy(node_views(nodes@)) ==> res == Err::<String, CoordinationError>(
                CoordinationError::NoHealthyNodes,
            ),
            some_healthy(node_views(nodes@)) ==> res is Ok && is_slot_owner(
                node_views(nodes@),
                key_slot(key@, self.slots()),
                res->Ok_0@,
            ),
    {
        let slot = self.slot_for_key(key);
        match slot_owner(nodes, slot) {
            Some(b) => Ok(nodes[b].id.clone()),
            None => Err(CoordinationError::NoHealthyNodes),
        }
    }
}

} // verus!
