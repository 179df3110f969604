//! The order in which an index holds what was scanned, and what it holds of
//! rows that share an id.
use crate::index;
use crate::index::builder;
use crate::index::builder::{Posting, ScannedEdgeView, ScannedNodeView};
use crate::index::laws;
use crate::index::{
    AdjacencyEntryView, EdgeRecordView, KeyEntryView, NodeRecordView, PartitionId, PropertyKeyView,
};
use crate::schema::partitioning;
use crate::schema::NodeId;
use vstd::prelude::*;

verus! {

/// A partition takes up the nodes that it owns one by one, in the order in
/// which they were scanned.
pub proof fn law_owned_nodes_come_as_scanned(
    a: Seq<ScannedNodeView>,
    b: Seq<ScannedNodeView>,
    x: ScannedNodeView,
    partition: PartitionId,
    n: u32,
)
    ensures
        builder::owned_nodes(a + b, partition, n) == builder::owned_nodes(a, partition, n)
            + builder::owned_nodes(b, partition, n),
        builder::owned_nodes(seq![x], partition, n) == if partitioning::owner(x.row.id, n)
            == partition.0 {
            seq![x]
        } else {
            seq![]
        },
    decreases b.len(),
{
    reveal_with_fuel(builder::owned_nodes, 2);
    assert(seq![x].drop_last() =~= Seq::<ScannedNodeView>::empty());
    assert(Seq::<ScannedNodeView>::empty().push(x) =~= seq![x]);
    let left = builder::owned_nodes(a, partition, n);
    let right = builder::owned_nodes(b, partition, n);
    if b.len() == 0 {
        assert(a + b =~= a);
        assert(left + right =~= left);
    } else {
        law_owned_nodes_come_as_scanned(a, b.drop_last(), x, partition, n);
        assert((a + b).drop_last() =~= a + b.drop_last());
        assert(builder::owned_nodes(a + b, partition, n) =~= left + right);
    }
}

/// The edges of a node are listed one by one, in the order in which they were
/// scanned. An edge is listed under the end that it leaves or reaches, with
/// its id and type and its other end; it is left out where another end that
/// the partition owns was not scanned.
pub proof fn law_edges_are_listed_as_scanned(
    a: Seq<ScannedEdgeView>,
    b: Seq<ScannedEdgeView>,
    e: ScannedEdgeView,
    node: NodeId,
    ids: Seq<NodeId>,
    partition: PartitionId,
    n: u32,
)
    ensures
        forall|outgoing: bool| #[trigger]
            builder::adjacent(a + b, node, ids, partition, n, outgoing) == builder::adjacent(
                a,
                node,
                ids,
                partition,
                n,
                outgoing,
            ) + builder::adjacent(b, node, ids, partition, n, outgoing),
        e.row.src != node ==> builder::adjacent(seq![e], node, ids, partition, n, true).len() == 0,
        e.row.dst != node ==> builder::adjacent(seq![e], node, ids, partition, n, false).len() == 0,
        e.row.src == node && ids.contains(e.row.dst) ==> builder::adjacent(
            seq![e],
            node,
            ids,
            partition,
            n,
            true,
        ) == seq![
            AdjacencyEntryView {
                edge_id: e.row.id,
                edge_type: e.edge_type,
                dst_local: Some(e.row.dst),
                dst_remote: None,
            },
        ],
        e.row.dst == node && ids.contains(e.row.src) ==> builder::adjacent(
            seq![e],
            node,
            ids,
            partition,
            n,
            false,
        ) == seq![
            AdjacencyEntryView {
                edge_id: e.row.id,
                edge_type: e.edge_type,
                dst_local: Some(e.row.src),
                dst_remote: None,
            },
        ],
        e.row.src == node && !ids.contains(e.row.dst) && partitioning::owner(e.row.dst, n)
            == partition.0 ==> builder::adjacent(seq![e], node, ids, partition, n, true).len() == 0,
{
    reveal_with_fuel(builder::adjacent, 2);
    assert(seq![e].drop_last() =~= Seq::<ScannedEdgeView>::empty());
    assert(builder::adjacent(seq![e].drop_last(), node, ids, partition, n, true) =~= seq![]);
    assert(builder::adjacent(seq![e].drop_last(), node, ids, partition, n, false) =~= seq![]);
    assert forall|outgoing: bool| #[trigger]
        builder::adjacent(a + b, node, ids, partition, n, outgoing) == builder::adjacent(
            a,
            node,
            ids,
            partition,
            n,
            outgoing,
        ) + builder::adjacent(b, node, ids, partition, n, outgoing) by {
        lemma_adjacent_add(a, b, node, ids, partition, n, outgoing);
    }
}

proof fn lemma_adjacent_add(
    a: Seq<ScannedEdgeView>,
    b: Seq<ScannedEdgeView>,
    node: NodeId,
    ids: Seq<NodeId>,
    partition: PartitionId,
    n: u32,
    outgoing: bool,
)
    ensures
        builder::adjacent(a + b, node, ids, partition, n, outgoing) == builder::adjacent(
            a,
            node,
            ids,
            partition,
            n,
            outgoing,
        ) + builder::adjacent(b, node, ids, partition, n, outgoing),
    decreases b.len(),
{
    let left = builder::adjacent(a, node, ids, partition, n, outgoing);
    let right = builder::adjacent(b, node, ids, partition, n, outgoing);
    if b.len() == 0 {
        assert(a + b =~= a);
        assert(left + right =~= left);
    } else {
        lemma_adjacent_add(a, b.drop_last(), node, ids, partition, n, outgoing);
        assert((a + b).drop_last() =~= a + b.drop_last());
        assert(builder::adjacent(a + b, node, ids, partition, n, outgoing) =~= left + right);
    }
}

/// Of several rows with one id the last one counts, for nodes: an id has a
/// record exactly where a row has the id, and the record is that of the last
/// such row.
pub proof fn law_the_last_row_of_a_node_counts(
    nodes: Seq<ScannedNodeView>,
    id: u64,
    record: NodeRecordView,
)
    ensures
        builder::node_record_map(nodes).dom().contains(id) && builder::node_record_map(nodes)[id]
            == record <==> exists|i: int|
            0 <= i < nodes.len() && (#[trigger] nodes[i]).row.id.0 == id && record.label
                == nodes[i].label && record.properties == nodes[i].row.properties && forall|k: int|
                i < k < nodes.len() ==> (#[trigger] nodes[k]).row.id.0 != id,
    decreases nodes.len(),
{
    if nodes.len() > 0 {
        let shorter = nodes.drop_last();
        let last = nodes.len() - 1;
        law_the_last_row_of_a_node_counts(shorter, id, record);
        assert(nodes[last] == nodes.last());
        if nodes.last().row.id.0 != id {
            if exists|i: int|
                0 <= i < shorter.len() && (#[trigger] shorter[i]).row.id.0 == id && record.label
                    == shorter[i].label && record.properties == shorter[i].row.properties && forall|
                    k: int,
                |
                    i < k < shorter.len() ==> (#[trigger] shorter[k]).row.id.0 != id {
                let i = choose|i: int|
                    0 <= i < shorter.len() && (#[trigger] shorter[i]).row.id.0 == id && record.label
                        == shorter[i].label && record.properties == shorter[i].row.properties
                        && forall|k: int|
                        i < k < shorter.len() ==> (#[trigger] shorter[k]).row.id.0 != id;
                assert(nodes[i].row.id.0 == id);
                assert forall|k: int| i < k < nodes.len() implies (#[trigger] nodes[k]).row.id.0
                    != id by {
                    if k < last {
                        assert(shorter[k].row.id.0 != id);
                    }
                }
            }
            if exists|i: int|
                0 <= i < nodes.len() && (#[trigger] nodes[i]).row.id.0 == id && record.label
                    == nodes[i].label && record.properties == nodes[i].row.properties && forall|
                    k: int,
                |
                    i < k < nodes.len() ==> (#[trigger] nodes[k]).row.id.0 != id {
                let i = choose|i: int|
                    0 <= i < nodes.len() && (#[trigger] nodes[i]).row.id.0 == id && record.label
                        == nodes[i].label && record.properties == nodes[i].row.properties
                        && forall|k: int|
                        i < k < nodes.len() ==> (#[trigger] nodes[k]).row.id.0 != id;
                assert(shorter[i].row.id.0 == id);
                assert forall|k: int| i < k < shorter.len() implies (#[trigger] shorter[k]).row.id.0
                    != id by {
                    assert(nodes[k].row.id.0 != id);
                }
            }
        }
    }
}

/// The same holds of edges, for those whose source a partition owns.
pub proof fn law_the_last_row_of_an_edge_counts(
    edges: Seq<ScannedEdgeView>,
    partition: PartitionId,
    n: u32,
    e: ScannedEdgeView,
)
    ensures
        partitioning::owner(e.row.src, n) == partition.0 ==> builder::edge_record_map(
            edges.push(e),
            partition,
            n,
        ).dom().contains(e.row.id.0) && builder::edge_record_map(
            edges.push(e),
            partition,
            n,
        )[e.row.id.0] == (EdgeRecordView {
            edge_type: e.edge_type,
            properties: e.row.properties,
        }),
        partitioning::owner(e.row.src, n) != partition.0 ==> builder::edge_record_map(
            edges.push(e),
            partition,
            n,
        ) == builder::edge_record_map(edges, partition, n),
        forall|id: u64|
            id != e.row.id.0 ==> (#[trigger] builder::edge_record_map(
                edges.push(e),
                partition,
                n,
            ).dom().contains(id) <==> builder::edge_record_map(edges, partition, n).dom().contains(
                id,
            )),
        forall|id: u64|
            id != e.row.id.0 && builder::edge_record_map(edges, partition, n).dom().contains(id)
                ==> #[trigger] builder::edge_record_map(edges.push(e), partition, n)[id]
                == builder::edge_record_map(edges, partition, n)[id],
        builder::edge_record_map(seq![], partition, n).dom() == Set::<u64>::empty(),
{
    assert(edges.push(e).drop_last() =~= edges);
    assert(builder::edge_record_map(seq![], partition, n).dom() =~= Set::<u64>::empty());
}

proof fn lemma_inserted(
    tree: Seq<KeyEntryView>,
    key: PropertyKeyView,
    id: NodeId,
    k: PropertyKeyView,
)
    requires
        index::rising(tree),
    ensures
        index::ids_at(builder::tree_insert(tree, key, id), k) == if k == key {
            index::ids_at(tree, k).push(id)
        } else {
            index::ids_at(tree, k)
        },
    decreases tree.len(),
{
    let out = builder::tree_insert(tree, key, id);
    if tree.len() == 0 {
        assert(out.drop_first() =~= Seq::<KeyEntryView>::empty());
        reveal_with_fuel(index::ids_at, 2);
        assert(Seq::<NodeId>::empty().push(id) =~= seq![id]);
    } else {
        let rest = tree.drop_first();
        assert forall|i: int, j: int| 0 <= i < j < rest.len() implies index::key_lt(
            (#[trigger] rest[i]).key,
            (#[trigger] rest[j]).key,
        ) by {
            assert(rest[i] == tree[i + 1]);
            assert(rest[j] == tree[j + 1]);
        }
        if tree[0].key == key {
            assert(out.drop_first() =~= rest);
        } else if index::key_lt(key, tree[0].key) {
            assert(out.drop_first() =~= tree);
            lemma_below(tree, key);
            assert(Seq::<NodeId>::empty().push(id) =~= seq![id]);
        } else {
            lemma_inserted(rest, key, id, k);
            assert(out.drop_first() =~= builder::tree_insert(rest, key, id));
        }
    }
}

/// Nothing is under a key below all keys of a tree.
proof fn lemma_below(tree: Seq<KeyEntryView>, key: PropertyKeyView)
    requires
        index::rising(tree),
        tree.len() > 0,
        index::key_lt(key, tree[0].key),
    ensures
        index::ids_at(tree, key) == Seq::<NodeId>::empty(),
{
    lemma_absent(tree, tree, key);
}

proof fn lemma_absent(tree: Seq<KeyEntryView>, tail: Seq<KeyEntryView>, key: PropertyKeyView)
    requires
        index::rising(tree),
        tree.len() > 0,
        index::key_lt(key, tree[0].key),
        forall|i: int| 0 <= i < tail.len() ==> tree.contains(#[trigger] tail[i]),
    ensures
        index::ids_at(tail, key) == Seq::<NodeId>::empty(),
    decreases tail.len(),
{
    if tail.len() > 0 {
        assert(tree.contains(tail[0]));
        let i = choose|i: int| 0 <= i < tree.len() && tree[i] == tail[0];
        if tail[0].key == key {
            if i > 0 {
                assert(index::key_lt(tree[0].key, tree[i].key));
            }
            index::lemma_key_order(key, tree[0].key);
            index::lemma_key_order(tree[0].key, key);
        }
        let rest = tail.drop_first();
        assert forall|j: int| 0 <= j < rest.len() implies tree.contains(#[trigger] rest[j]) by {
            assert(rest[j] == tail[j + 1]);
        }
        lemma_absent(tree, rest, key);
    }
}

/// The nodes under a key come one by one, in the order in which they were
/// posted: one more posting adds its node behind the others under its own key,
/// and changes nothing else.
pub proof fn law_nodes_under_a_key_come_as_posted(
    ps: Seq<Posting>,
    p: Posting,
    label: Seq<char>,
    property: Seq<char>,
    key: PropertyKeyView,
)
    ensures
        index::ids_at(builder::tree_of(seq![], label, property), key).len() == 0,
        index::ids_at(builder::tree_of(ps.push(p), label, property), key) == if p.label == label
            && p.property == property && p.key == key {
            index::ids_at(builder::tree_of(ps, label, property), key).push(p.id)
        } else {
            index::ids_at(builder::tree_of(ps, label, property), key)
        },
{
    assert(ps.push(p).drop_last() =~= ps);
    laws::law_trees_are_in_order(ps, label, property);
    lemma_inserted(builder::tree_of(ps, label, property), p.key, p.id, key);
}

} // verus!
