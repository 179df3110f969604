//! Which partition owns a node: the one place where that formula stands.
use crate::schema::NodeId;
use vstd::prelude::*;

verus! {

/// The 64-bit XXH3 hash of a byte sequence, without a seed.
pub uninterp spec fn xxh3_64_of(bytes: Seq<u8>) -> u64;

/// `xxhash_rust::xxh3::xxh3_64`: a function of the bytes alone, the same in
/// every process and on every machine. Its value is named `xxh3_64_of`;
/// nothing else is claimed of it.
#[verifier::external_body]
pub(crate) fn xxh3_64(bytes: &[u8]) -> (r: u64)
    ensures
        r == xxh3_64_of(bytes@),
{
    xxhash_rust::xxh3::xxh3_64(bytes)
}

/// The stable hash of a node id.
pub open spec fn node_hash(node_id: u64) -> u64 {
    xxh3_64_of(vstd::bytes::spec_u64_to_le_bytes(node_id))
}

/// The partition that owns a node.
pub open spec fn owner(node_id: NodeId, n_partitions: u32) -> u32 {
    (node_hash(node_id.0) as int % n_partitions as int) as u32
}

/// The stable hash of a node id: XXH3 over its little-endian bytes.
pub fn stable_hash(node_id: u64) -> (r: u64)
    ensures
        r == node_hash(node_id),
{
    let bytes = vstd::bytes::u64_to_le_bytes(node_id);
    xxh3_64(bytes.as_slice())
}

/// The partition that a hash falls into.
pub fn partition_of_hash(hash: u64, n_partitions: u32) -> (r: u32)
    requires
        n_partitions > 0,
    ensures
        r == hash as int % n_partitions as int,
        r < n_partitions,
{
    (hash % n_partitions as u64) as u32
}

/// The partition that owns a node, out of `n_partitions`.
pub fn partition_of(node_id: NodeId, n_partitions: u32) -> (r: u32)
    requires
        n_partitions > 0,
    ensures
        r == owner(node_id, n_partitions),
        r < n_partitions,
{
    partition_of_hash(stable_hash(node_id.0), n_partitions)
}

/// Every node has exactly one owner, and it is one of the partitions.
pub proof fn law_every_node_has_one_owner(node_id: NodeId, n_partitions: u32)
    requires
        n_partitions > 0,
    ensures
        owner(node_id, n_partitions) < n_partitions,
        forall|p: u32|
            p < n_partitions ==> (#[trigger] owns(p, node_id, n_partitions) <==> p == owner(
                node_id,
                n_partitions,
            )),
        n_partitions == 1 ==> owner(node_id, n_partitions) == 0,
{
    assert(0 <= node_hash(node_id.0) as int % n_partitions as int) by (nonlinear_arith)
        requires
            n_partitions > 0,
    ;
    assert((node_hash(node_id.0) as int % n_partitions as int) < n_partitions as int)
        by (nonlinear_arith)
        requires
            n_partitions > 0,
    ;
}

/// Whether a partition owns a node.
pub open spec fn owns(partition: u32, node_id: NodeId, n_partitions: u32) -> bool {
    partition == owner(node_id, n_partitions)
}

/// The owner of a node is what is left of its hash when it is divided by the
/// number of partitions; the hash is that of the eight bytes of its id, the
/// lowest first.
pub proof fn law_the_owner_is_the_rest_of_the_hash(id: u64, n_partitions: u32, bytes: Seq<u8>) -> (k:
    int)
    requires
        n_partitions > 0,
        bytes.len() == 8,
        vstd::bytes::spec_u64_from_le_bytes(bytes) == id,
    ensures
        xxh3_64_of(bytes) == k * n_partitions + owner(NodeId(id), n_partitions),
        owner(NodeId(id), n_partitions) < n_partitions,
{
    vstd::bytes::lemma_auto_spec_u64_to_from_le_bytes();
    assert(vstd::bytes::spec_u64_to_le_bytes(vstd::bytes::spec_u64_from_le_bytes(bytes)) == bytes);
    law_every_node_has_one_owner(NodeId(id), n_partitions);
    let hash = xxh3_64_of(bytes) as int;
    let n = n_partitions as int;
    assert(hash == (hash / n) * n + hash % n && 0 <= hash % n < n) by (nonlinear_arith)
        requires
            n > 0,
    ;
    hash / n
}

} // verus!
