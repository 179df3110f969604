//! What holds of the indexes of a partitioned graph: which partition holds
//! what, where edges lead, and what lookups find.
use crate::index;
use crate::index::builder;
use crate::index::builder::{Posting, ScannedEdgeView, ScannedNodeView};
use crate::index::{
    AdjacencyEntryView, EdgeRecordView, IndexGeneration, KeyBoundView, KeyEntryView, PartitionId,
    PropertyKeyView,
};
use crate::schema::partitioning;
use crate::schema::{NodeId, SchemaView};
use vstd::prelude::*;

verus! {

/// A partition holds exactly the scanned nodes that it owns.
pub proof fn law_a_partition_holds_what_it_owns(
    nodes: Seq<ScannedNodeView>,
    partition: PartitionId,
    n: u32,
    id: NodeId,
)
    ensures
        builder::ids_of(builder::owned_nodes(nodes, partition, n)).contains(id)
            <==> builder::ids_of(nodes).contains(id) && partitioning::owner(id, n)
            == partition.0,
    decreases nodes.len(),
{
    if nodes.len() > 0 {
        let shorter = nodes.drop_last();
        law_a_partition_holds_what_it_owns(shorter, partition, n, id);
        let last = nodes.last().row.id;
        let rest = builder::owned_nodes(shorter, partition, n);
        let all = builder::owned_nodes(nodes, partition, n);
        assert(builder::ids_of(nodes) =~= builder::ids_of(shorter).push(last));
        lemma_contains_push(builder::ids_of(shorter), last, id);
        if partitioning::owner(last, n) == partition.0 {
            assert(builder::ids_of(all) =~= builder::ids_of(rest).push(last));
            lemma_contains_push(builder::ids_of(rest), last, id);
        }
    }
}

pub proof fn lemma_contains_push<T>(items: Seq<T>, x: T, y: T)
    ensures
        items.push(x).contains(y) <==> items.contains(y) || x == y,
{
    let all = items.push(x);
    if items.contains(y) {
        let i = choose|i: int| 0 <= i < items.len() && items[i] == y;
        assert(all[i] == y);
    }
    assert(all[items.len() as int] == x);
    if all.contains(y) && x != y {
        let i = choose|i: int| 0 <= i < all.len() && all[i] == y;
        assert(items[i] == y);
    }
}

pub proof fn lemma_contains_add<T>(a: Seq<T>, b: Seq<T>, y: T)
    ensures
        (a + b).contains(y) <==> a.contains(y) || b.contains(y),
{
    let all = a + b;
    if a.contains(y) {
        let i = choose|i: int| 0 <= i < a.len() && a[i] == y;
        assert(all[i] == y);
    }
    if b.contains(y) {
        let i = choose|i: int| 0 <= i < b.len() && b[i] == y;
        assert(all[a.len() + i] == y);
    }
    if all.contains(y) {
        let i = choose|i: int| 0 <= i < all.len() && all[i] == y;
        if i < a.len() {
            assert(a[i] == y);
        } else {
            assert(b[i - a.len()] == y);
        }
    }
}

/// Every scanned node is held by exactly one of the partitions.
pub proof fn law_every_node_is_in_one_partition(
    nodes: Seq<ScannedNodeView>,
    n: u32,
    id: NodeId,
    p: u32,
    q: u32,
)
    requires
        n > 0,
        builder::ids_of(nodes).contains(id),
    ensures
        partitioning::owner(id, n) < n,
        builder::ids_of(
            builder::owned_nodes(nodes, PartitionId(partitioning::owner(id, n)), n),
        ).contains(id),
        builder::ids_of(builder::owned_nodes(nodes, PartitionId(p), n)).contains(id)
            && builder::ids_of(builder::owned_nodes(nodes, PartitionId(q), n)).contains(id) ==> p
            == q,
{
    partitioning::law_every_node_has_one_owner(id, n);
    law_a_partition_holds_what_it_owns(
        nodes,
        PartitionId(partitioning::owner(id, n)),
        n,
        id,
    );
    law_a_partition_holds_what_it_owns(nodes, PartitionId(p), n, id);
    law_a_partition_holds_what_it_owns(nodes, PartitionId(q), n, id);
}

/// The entries of a node are those of the scanned edges at it that lead on.
pub proof fn lemma_adjacent(
    edges: Seq<ScannedEdgeView>,
    node: NodeId,
    ids: Seq<NodeId>,
    partition: PartitionId,
    n: u32,
    outgoing: bool,
    e: AdjacencyEntryView,
)
    ensures
        builder::adjacent(edges, node, ids, partition, n, outgoing).contains(e) <==> exists|i: int|
            0 <= i < edges.len() && builder::near_end((#[trigger] edges[i]).row, outgoing) == node
                && builder::leads_on(edges[i], ids, partition, n, outgoing)
                && e == builder::entry_of(edges[i], ids, partition, n, outgoing),
    decreases edges.len(),
{
    if edges.len() > 0 {
        let shorter = edges.drop_last();
        lemma_adjacent(shorter, node, ids, partition, n, outgoing, e);
        let rest = builder::adjacent(shorter, node, ids, partition, n, outgoing);
        lemma_contains_push(
            rest,
            builder::entry_of(edges.last(), ids, partition, n, outgoing),
            e,
        );
        if exists|i: int|
            0 <= i < shorter.len() && builder::near_end((#[trigger] shorter[i]).row, outgoing)
                == node && builder::leads_on(shorter[i], ids, partition, n, outgoing)
                && e == builder::entry_of(shorter[i], ids, partition, n, outgoing) {
            let i = choose|i: int|
                0 <= i < shorter.len() && builder::near_end((#[trigger] shorter[i]).row, outgoing)
                    == node && builder::leads_on(shorter[i], ids, partition, n, outgoing)
                    && e == builder::entry_of(shorter[i], ids, partition, n, outgoing);
            assert(edges[i] == shorter[i]);
        }
        if exists|i: int|
            0 <= i < edges.len() && builder::near_end((#[trigger] edges[i]).row, outgoing) == node
                && builder::leads_on(edges[i], ids, partition, n, outgoing)
                && e == builder::entry_of(edges[i], ids, partition, n, outgoing) {
            let i = choose|i: int|
                0 <= i < edges.len() && builder::near_end((#[trigger] edges[i]).row, outgoing)
                    == node && builder::leads_on(edges[i], ids, partition, n, outgoing)
                    && e == builder::entry_of(edges[i], ids, partition, n, outgoing);
            if i < shorter.len() {
                assert(edges[i] == shorter[i]);
            }
        }
        assert(edges[edges.len() - 1] == edges.last());
    }
}

/// A remote reference leads to another partition than the one that holds it,
/// namely to the owner of the node, which is not here.
pub proof fn law_remote_references_lead_elsewhere(
    g: IndexGeneration,
    s: SchemaView,
    partition: PartitionId,
    n: u32,
    nodes: Seq<ScannedNodeView>,
    edges: Seq<ScannedEdgeView>,
    node: NodeId,
    i: int,
)
    requires
        builder::indexes(g, s, partition, n, nodes, edges),
    ensures
        0 <= i < g.topology.out_of(node).len() ==> (g.topology.out_of(node)[i].dst_remote matches Some(
            r,
        ) ==> r.partition != partition && r.partition.0 == partitioning::owner(r.node, n)
            && !g.topology.nodes().contains(r.node)),
        0 <= i < g.topology.in_to(node).len() ==> (g.topology.in_to(node)[i].dst_remote matches Some(
            r,
        ) ==> r.partition != partition && r.partition.0 == partitioning::owner(r.node, n)
            && !g.topology.nodes().contains(r.node)),
{
    let owned = builder::owned_nodes(nodes, partition, n);
    let ids = builder::ids_of(owned);
    if 0 <= i < g.topology.out_of(node).len() {
        let e = g.topology.out_of(node)[i];
        assert(builder::adjacent(edges, node, ids, partition, n, true).contains(e));
        lemma_adjacent(edges, node, ids, partition, n, true, e);
    }
    if 0 <= i < g.topology.in_to(node).len() {
        let e = g.topology.in_to(node)[i];
        assert(builder::adjacent(edges, node, ids, partition, n, false).contains(e));
        lemma_adjacent(edges, node, ids, partition, n, false, e);
    }
}

/// With one partition there are no remote references.
pub proof fn law_one_partition_has_no_remote_references(
    g: IndexGeneration,
    s: SchemaView,
    nodes: Seq<ScannedNodeView>,
    edges: Seq<ScannedEdgeView>,
    node: NodeId,
    i: int,
)
    requires
        builder::indexes(g, s, PartitionId(0), 1, nodes, edges),
    ensures
        0 <= i < g.topology.out_of(node).len() ==> g.topology.out_of(node)[i].dst_remote is None,
        0 <= i < g.topology.in_to(node).len() ==> g.topology.in_to(node)[i].dst_remote is None,
{
    law_remote_references_lead_elsewhere(g, s, PartitionId(0), 1, nodes, edges, node, i);
    assert forall|x: NodeId| partitioning::owner(x, 1) == 0 by {
        partitioning::law_every_node_has_one_owner(x, 1);
    }
}

/// Whether an id is under a key.
pub open spec fn under(tree: Seq<KeyEntryView>, key: PropertyKeyView, id: NodeId) -> bool {
    exists|i: int|
        0 <= i < tree.len() && (#[trigger] tree[i]).key == key && tree[i].ids.contains(id)
}

proof fn lemma_under_cons(first: KeyEntryView, rest: Seq<KeyEntryView>, k: PropertyKeyView, x: NodeId)
    ensures
        under(seq![first] + rest, k, x) <==> (first.key == k && first.ids.contains(x)) || under(
            rest,
            k,
            x,
        ),
{
    let all = seq![first] + rest;
    assert(all[0] == first);
    if under(rest, k, x) {
        let i = choose|i: int|
            0 <= i < rest.len() && (#[trigger] rest[i]).key == k && rest[i].ids.contains(x);
        assert(all[i + 1] == rest[i]);
    }
    if under(all, k, x) {
        let i = choose|i: int|
            0 <= i < all.len() && (#[trigger] all[i]).key == k && all[i].ids.contains(x);
        if i > 0 {
            assert(rest[i - 1] == all[i]);
        }
    }
}

proof fn lemma_tree_insert(
    tree: Seq<KeyEntryView>,
    key: PropertyKeyView,
    id: NodeId,
    k: PropertyKeyView,
    x: NodeId,
)
    requires
        index::rising(tree),
    ensures
        index::rising(builder::tree_insert(tree, key, id)),
        under(builder::tree_insert(tree, key, id), k, x) <==> under(tree, k, x) || (k == key && x
            == id),
        forall|b: PropertyKeyView|
            (forall|i: int| 0 <= i < tree.len() ==> index::key_lt(b, (#[trigger] tree[i]).key))
                && index::key_lt(b, key) ==> (forall|i: int|
                0 <= i < builder::tree_insert(tree, key, id).len() ==> index::key_lt(
                    b,
                    (#[trigger] builder::tree_insert(tree, key, id)[i]).key,
                )),
    decreases tree.len(),
{
    let out = builder::tree_insert(tree, key, id);
    if tree.len() == 0 {
        assert(out[0].ids[0] == id);
        assert(out =~= seq![out[0]] + tree);
        lemma_under_cons(out[0], tree, k, x);
        assert(out[0].ids.contains(x) ==> x == id);
    } else {
        let rest = tree.drop_first();
        assert(tree =~= seq![tree[0]] + rest);
        lemma_under_cons(tree[0], rest, k, x);
        assert forall|i: int, j: int| 0 <= i < j < rest.len() implies index::key_lt(
            (#[trigger] rest[i]).key,
            (#[trigger] rest[j]).key,
        ) by {
            assert(rest[i] == tree[i + 1]);
            assert(rest[j] == tree[j + 1]);
        }
        if tree[0].key == key {
            let first = KeyEntryView { key, ids: tree[0].ids.push(id) };
            lemma_under_cons(first, rest, k, x);
            lemma_contains_push(tree[0].ids, id, x);
            assert forall|i: int, j: int| 0 <= i < j < out.len() implies index::key_lt(
                (#[trigger] out[i]).key,
                (#[trigger] out[j]).key,
            ) by {
                assert(out[i].key == tree[i].key);
                assert(out[j].key == tree[j].key);
            }
            assert forall|i: int| 0 <= i < out.len() implies (#[trigger] out[i]).key
                == tree[i].key by {
                if i > 0 {
                    assert(out[i] == rest[i - 1]);
                }
            }
            assert forall|b: PropertyKeyView|
                (forall|i: int| 0 <= i < tree.len() ==> index::key_lt(b, (#[trigger] tree[i]).key))
                    && index::key_lt(b, key) implies (forall|i: int|
                0 <= i < out.len() ==> index::key_lt(b, (#[trigger] out[i]).key)) by {
                assert forall|i: int| 0 <= i < out.len() implies index::key_lt(
                    b,
                    (#[trigger] out[i]).key,
                ) by {
                    assert(out[i].key == tree[i].key);
                }
            }
        } else if index::key_lt(key, tree[0].key) {
            let first = KeyEntryView { key, ids: seq![id] };
            lemma_under_cons(first, tree, k, x);
            assert(first.ids[0] == id);
            assert(first.ids.contains(x) ==> x == id);
            assert forall|i: int, j: int| 0 <= i < j < out.len() implies index::key_lt(
                (#[trigger] out[i]).key,
                (#[trigger] out[j]).key,
            ) by {
                assert(out[j] == tree[j - 1]);
                if i == 0 {
                    if j > 1 {
                        assert(index::key_lt(tree[0].key, tree[j - 1].key));
                        index::lemma_key_transitive(key, tree[0].key, tree[j - 1].key);
                    }
                } else {
                    assert(out[i] == tree[i - 1]);
                }
            }
            assert forall|b: PropertyKeyView|
                (forall|i: int| 0 <= i < tree.len() ==> index::key_lt(b, (#[trigger] tree[i]).key))
                    && index::key_lt(b, key) implies (forall|i: int|
                0 <= i < out.len() ==> index::key_lt(b, (#[trigger] out[i]).key)) by {
                assert forall|i: int| 0 <= i < out.len() implies index::key_lt(
                    b,
                    (#[trigger] out[i]).key,
                ) by {
                    if i > 0 {
                        assert(out[i] == tree[i - 1]);
                    }
                }
            }
        } else {
            lemma_tree_insert(rest, key, id, k, x);
            let inner = builder::tree_insert(rest, key, id);
            lemma_under_cons(tree[0], inner, k, x);
            index::lemma_key_order(key, tree[0].key);
            assert(index::key_lt(tree[0].key, key));
            assert forall|i: int| 0 <= i < rest.len() implies index::key_lt(
                tree[0].key,
                (#[trigger] rest[i]).key,
            ) by {
                assert(rest[i] == tree[i + 1]);
            }
            assert forall|i: int, j: int| 0 <= i < j < out.len() implies index::key_lt(
                (#[trigger] out[i]).key,
                (#[trigger] out[j]).key,
            ) by {
                assert(out[j] == inner[j - 1]);
                if i > 0 {
                    assert(out[i] == inner[i - 1]);
                } else {
                    assert(index::key_lt(tree[0].key, inner[j - 1].key));
                }
            }
            assert forall|b: PropertyKeyView|
                (forall|i: int| 0 <= i < tree.len() ==> index::key_lt(b, (#[trigger] tree[i]).key))
                    && index::key_lt(b, key) implies (forall|i: int|
                0 <= i < out.len() ==> index::key_lt(b, (#[trigger] out[i]).key)) by {
                assert forall|i: int| 0 <= i < rest.len() implies index::key_lt(
                    b,
                    (#[trigger] rest[i]).key,
                ) by {
                    assert(rest[i] == tree[i + 1]);
                }
                assert forall|i: int| 0 <= i < out.len() implies index::key_lt(
                    b,
                    (#[trigger] out[i]).key,
                ) by {
                    if i > 0 {
                        assert(out[i] == inner[i - 1]);
                    } else {
                        assert(index::key_lt(b, tree[0].key));
                    }
                }
            }
        }
    }
}

/// Whether postings put an id under a key of a property of a label.
pub open spec fn posted(
    ps: Seq<Posting>,
    label: Seq<char>,
    property: Seq<char>,
    key: PropertyKeyView,
    id: NodeId,
) -> bool {
    ps.contains(Posting { label, property, key, id })
}

/// A tree holds what was posted, in rising order of the keys.
pub proof fn law_a_tree_holds_what_was_posted(
    ps: Seq<Posting>,
    label: Seq<char>,
    property: Seq<char>,
    key: PropertyKeyView,
    id: NodeId,
)
    ensures
        index::rising(builder::tree_of(ps, label, property)),
        under(builder::tree_of(ps, label, property), key, id) <==> posted(
            ps,
            label,
            property,
            key,
            id,
        ),
    decreases ps.len(),
{
    if ps.len() > 0 {
        let shorter = ps.drop_last();
        law_a_tree_holds_what_was_posted(shorter, label, property, key, id);
        let rest = builder::tree_of(shorter, label, property);
        let p = ps.last();
        assert(ps =~= shorter.push(p));
        lemma_contains_push(shorter, p, Posting { label, property, key, id });
        if p.label == label && p.property == property {
            lemma_tree_insert(rest, p.key, p.id, key, id);
        }
    }
}

proof fn lemma_insert_keeps_full(tree: Seq<KeyEntryView>, key: PropertyKeyView, id: NodeId)
    requires
        index::full(tree),
    ensures
        index::full(builder::tree_insert(tree, key, id)),
    decreases tree.len(),
{
    let out = builder::tree_insert(tree, key, id);
    if tree.len() > 0 {
        let rest = tree.drop_first();
        assert forall|i: int| 0 <= i < rest.len() implies (#[trigger] rest[i]).ids.len() > 0 by {
            assert(rest[i] == tree[i + 1]);
        }
        if tree[0].key == key {
            assert forall|i: int| 0 <= i < out.len() implies (#[trigger] out[i]).ids.len() > 0 by {
                if i > 0 {
                    assert(out[i] == rest[i - 1]);
                }
            }
        } else if index::key_lt(key, tree[0].key) {
            assert forall|i: int| 0 <= i < out.len() implies (#[trigger] out[i]).ids.len() > 0 by {
                if i > 0 {
                    assert(out[i] == tree[i - 1]);
                }
            }
        } else {
            lemma_insert_keeps_full(rest, key, id);
            let inner = builder::tree_insert(rest, key, id);
            assert forall|i: int| 0 <= i < out.len() implies (#[trigger] out[i]).ids.len() > 0 by {
                if i > 0 {
                    assert(out[i] == inner[i - 1]);
                } else {
                    assert(out[0] == tree[0]);
                }
            }
        }
    }
}

/// A tree is in order: its keys rise, and there are nodes under each of them.
pub proof fn law_trees_are_in_order(ps: Seq<Posting>, label: Seq<char>, property: Seq<char>)
    ensures
        index::rising(builder::tree_of(ps, label, property)),
        index::full(builder::tree_of(ps, label, property)),
    decreases ps.len(),
{
    law_a_tree_holds_what_was_posted(ps, label, property, arbitrary(), arbitrary());
    if ps.len() > 0 {
        law_trees_are_in_order(ps.drop_last(), label, property);
        lemma_insert_keeps_full(
            builder::tree_of(ps.drop_last(), label, property),
            ps.last().key,
            ps.last().id,
        );
    }
}

/// In a tree whose keys rise a lookup by equality finds what is under the
/// key.
pub proof fn law_equality_finds_what_is_under_the_key(
    tree: Seq<KeyEntryView>,
    key: PropertyKeyView,
    id: NodeId,
)
    requires
        index::rising(tree),
    ensures
        index::ids_at(tree, key).contains(id) <==> under(tree, key, id),
    decreases tree.len(),
{
    if tree.len() > 0 {
        let rest = tree.drop_first();
        assert(tree =~= seq![tree[0]] + rest);
        lemma_under_cons(tree[0], rest, key, id);
        assert forall|i: int, j: int| 0 <= i < j < rest.len() implies index::key_lt(
            (#[trigger] rest[i]).key,
            (#[trigger] rest[j]).key,
        ) by {
            assert(rest[i] == tree[i + 1]);
            assert(rest[j] == tree[j + 1]);
        }
        law_equality_finds_what_is_under_the_key(rest, key, id);
        if tree[0].key == key && under(rest, key, id) {
            let i = choose|i: int|
                0 <= i < rest.len() && (#[trigger] rest[i]).key == key && rest[i].ids.contains(id);
            assert(rest[i] == tree[i + 1]);
            assert(index::key_lt(tree[0].key, tree[i + 1].key));
            index::lemma_key_order(key, key);
        }
    }
}

/// A lookup by range finds what is under the keys of the range.
pub proof fn law_a_range_finds_what_is_under_its_keys(
    tree: Seq<KeyEntryView>,
    lower: KeyBoundView,
    upper: KeyBoundView,
    id: NodeId,
)
    ensures
        index::ids_between(tree, lower, upper).contains(id) <==> exists|key: PropertyKeyView|
            index::in_bounds(key, lower, upper) && #[trigger] under(tree, key, id),
    decreases tree.len(),
{
    if tree.len() > 0 {
        let rest = tree.drop_first();
        assert(tree =~= seq![tree[0]] + rest);
        law_a_range_finds_what_is_under_its_keys(rest, lower, upper, id);
        let here = if index::in_bounds(tree[0].key, lower, upper) {
            tree[0].ids
        } else {
            seq![]
        };
        lemma_contains_add(here, index::ids_between(rest, lower, upper), id);
        assert forall|key: PropertyKeyView| #[trigger] under(tree, key, id) <==> (tree[0].key
            == key && tree[0].ids.contains(id)) || under(rest, key, id) by {
            lemma_under_cons(tree[0], rest, key, id);
        }
        if index::ids_between(tree, lower, upper).contains(id) {
            if here.contains(id) {
                assert(under(tree, tree[0].key, id));
            } else {
                let key = choose|key: PropertyKeyView|
                    index::in_bounds(key, lower, upper) && #[trigger] under(rest, key, id);
                assert(under(tree, key, id));
            }
        }
        if exists|key: PropertyKeyView|
            index::in_bounds(key, lower, upper) && #[trigger] under(tree, key, id) {
            let key = choose|key: PropertyKeyView|
                index::in_bounds(key, lower, upper) && #[trigger] under(tree, key, id);
            if under(rest, key, id) {
                assert(index::ids_between(rest, lower, upper).contains(id));
            }
        }
    } else {
        assert(!index::ids_between(tree, lower, upper).contains(id));
    }
}

/// What is posted for the nodes of all partitions together is what is posted
/// for the nodes of one of them.
pub proof fn law_postings_are_divided_by_owner(
    nodes: Seq<ScannedNodeView>,
    s: SchemaView,
    partition: PartitionId,
    n: u32,
    p: Posting,
)
    ensures
        builder::postings(builder::owned_nodes(nodes, partition, n), s).contains(p)
            <==> builder::postings(nodes, s).contains(p) && partitioning::owner(p.id, n)
            == partition.0,
    decreases nodes.len(),
{
    if nodes.len() > 0 {
        let shorter = nodes.drop_last();
        let x = nodes.last();
        law_postings_are_divided_by_owner(shorter, s, partition, n, p);
        lemma_contains_add(builder::postings(shorter, s), builder::node_postings(x, s), p);
        lemma_node_postings(x, s, p);
        let rest = builder::owned_nodes(shorter, partition, n);
        if partitioning::owner(x.row.id, n) == partition.0 {
            let all = builder::owned_nodes(nodes, partition, n);
            assert(all.drop_last() =~= rest);
            lemma_contains_add(builder::postings(rest, s), builder::node_postings(x, s), p);
        }
    }
}

proof fn lemma_property_postings(
    x: ScannedNodeView,
    defs: Seq<crate::schema::PropertyDefView>,
    p: Posting,
)
    ensures
        builder::property_postings(x, defs).contains(p) ==> p.id == x.row.id,
    decreases defs.len(),
{
    if defs.len() > 0 {
        lemma_property_postings(x, defs.drop_last(), p);
        lemma_contains_add(
            builder::property_postings(x, defs.drop_last()),
            builder::property_posting(x, defs.last()),
            p,
        );
    }
}

proof fn lemma_node_postings(x: ScannedNodeView, s: SchemaView, p: Posting)
    ensures
        builder::node_postings(x, s).contains(p) ==> p.id == x.row.id,
{
    match crate::schema::find_node(s.nodes, x.label) {
        Some(def) => {
            lemma_property_postings(x, def.properties, p);
        },
        None => {},
    }
}

/// The record of an edge is with the partition that owns its source, and
/// nowhere else: a partition has a record of an edge only where it owns the
/// source of an edge with that id.
pub proof fn law_edge_records_follow_the_source(
    edges: Seq<ScannedEdgeView>,
    partition: PartitionId,
    n: u32,
    id: u64,
)
    ensures
        builder::edge_record_map(edges, partition, n).dom().contains(id) <==> exists|i: int|
            0 <= i < edges.len() && (#[trigger] edges[i]).row.id.0 == id && partitioning::owner(
                edges[i].row.src,
                n,
            ) == partition.0,
    decreases edges.len(),
{
    if edges.len() > 0 {
        let shorter = edges.drop_last();
        law_edge_records_follow_the_source(shorter, partition, n, id);
        if exists|i: int|
            0 <= i < shorter.len() && (#[trigger] shorter[i]).row.id.0 == id
                && partitioning::owner(shorter[i].row.src, n) == partition.0 {
            let i = choose|i: int|
                0 <= i < shorter.len() && (#[trigger] shorter[i]).row.id.0 == id
                    && partitioning::owner(shorter[i].row.src, n) == partition.0;
            assert(edges[i] == shorter[i]);
        }
        if exists|i: int|
            0 <= i < edges.len() && (#[trigger] edges[i]).row.id.0 == id && partitioning::owner(
                edges[i].row.src,
                n,
            ) == partition.0 {
            let i = choose|i: int|
                0 <= i < edges.len() && (#[trigger] edges[i]).row.id.0 == id
                    && partitioning::owner(edges[i].row.src, n) == partition.0;
            if i < shorter.len() {
                assert(edges[i] == shorter[i]);
            }
        }
        assert(edges[edges.len() - 1] == edges.last());
    }
}

/// Where edge ids are unique, the record of an edge is what was scanned.
pub proof fn law_edge_records_hold_what_was_scanned(
    edges: Seq<ScannedEdgeView>,
    partition: PartitionId,
    n: u32,
    i: int,
)
    requires
        0 <= i < edges.len(),
        partitioning::owner(edges[i].row.src, n) == partition.0,
        forall|a: int, b: int|
            0 <= a < b < edges.len() ==> (#[trigger] edges[a]).row.id != (
            #[trigger] edges[b]).row.id,
    ensures
        builder::edge_record_map(edges, partition, n).dom().contains(edges[i].row.id.0),
        builder::edge_record_map(edges, partition, n)[edges[i].row.id.0] == (EdgeRecordView {
            edge_type: edges[i].edge_type,
            properties: edges[i].row.properties,
        }),
    decreases edges.len(),
{
    let shorter = edges.drop_last();
    if i < shorter.len() {
        assert forall|a: int, b: int| 0 <= a < b < shorter.len() implies (
        #[trigger] shorter[a]).row.id != (#[trigger] shorter[b]).row.id by {
            assert(shorter[a] == edges[a]);
            assert(shorter[b] == edges[b]);
        }
        law_edge_records_hold_what_was_scanned(shorter, partition, n, i);
        assert(shorter[i] == edges[i]);
        assert(edges[i].row.id != edges[edges.len() - 1].row.id);
    } else {
        assert(edges[i] == edges.last());
    }
}

} // verus!
