//! A filter gives the same whether the index answers it or the stored value
//! is compared, as long as the values can be compared with the literal.
use crate::dsl::{ComparisonOp, LiteralView, PropertyFilterView};
use crate::index;
use crate::index::builder;
use crate::index::builder::{Posting, ScannedNodeView};
use crate::index::laws;
use crate::index::{IndexGeneration, PartitionId, PropertyKeyView};
use crate::query::filter_eval;
use crate::query::local_executor;
use crate::query::lookup;
use crate::query::planner;
use crate::schema;
use crate::schema::{PropertyDefView, SchemaView};
use crate::storage::PropertyValueView;
use crate::text;
use vstd::prelude::*;

verus! {

/// Whether a property of a label is declared and indexed.
pub open spec fn is_indexed(s: SchemaView, label: Seq<char>, property: Seq<char>) -> bool {
    match schema::find_node(s.nodes, label) {
        Some(def) => exists|i: int|
            0 <= i < def.properties.len() && (#[trigger] def.properties[i]).name == property
                && def.properties[i].indexed,
        None => false,
    }
}

proof fn lemma_property_postings(x: ScannedNodeView, defs: Seq<PropertyDefView>, p: Posting)
    ensures
        builder::property_postings(x, defs).contains(p) <==> p.label == x.label && p.id
            == x.row.id && x.row.properties.dom().contains(p.property) && builder::key_of(
            x.row.properties[p.property],
        ) == Some(p.key) && exists|i: int|
            0 <= i < defs.len() && (#[trigger] defs[i]).name == p.property && defs[i].indexed,
    decreases defs.len(),
{
    if defs.len() > 0 {
        let shorter = defs.drop_last();
        lemma_property_postings(x, shorter, p);
        let last = builder::property_posting(x, defs.last());
        laws::lemma_contains_add(builder::property_postings(x, shorter), last, p);
        assert(defs[defs.len() - 1] == defs.last());
        if last.contains(p) {
            let j = choose|j: int| 0 <= j < last.len() && last[j] == p;
            assert(last[0] == p);
        }
        if defs.last().name == p.property && defs.last().indexed && p.label == x.label && p.id
            == x.row.id && x.row.properties.dom().contains(p.property) && builder::key_of(
            x.row.properties[p.property],
        ) == Some(p.key) {
            assert(last[0] == p);
        }
        if exists|i: int|
            0 <= i < shorter.len() && (#[trigger] shorter[i]).name == p.property
                && shorter[i].indexed {
            let i = choose|i: int|
                0 <= i < shorter.len() && (#[trigger] shorter[i]).name == p.property
                    && shorter[i].indexed;
            assert(defs[i] == shorter[i]);
        }
        if exists|i: int|
            0 <= i < defs.len() && (#[trigger] defs[i]).name == p.property && defs[i].indexed {
            let i = choose|i: int|
                0 <= i < defs.len() && (#[trigger] defs[i]).name == p.property && defs[i].indexed;
            if i < shorter.len() {
                assert(shorter[i] == defs[i]);
            }
        }
    }
}

/// A value is posted exactly where a node has it under an indexed property.
pub proof fn law_postings_are_the_indexed_values(
    nodes: Seq<ScannedNodeView>,
    s: SchemaView,
    p: Posting,
)
    ensures
        builder::postings(nodes, s).contains(p) <==> is_indexed(s, p.label, p.property)
            && exists|i: int|
            0 <= i < nodes.len() && (#[trigger] nodes[i]).label == p.label && nodes[i].row.id
                == p.id && nodes[i].row.properties.dom().contains(p.property) && builder::key_of(
                nodes[i].row.properties[p.property],
            ) == Some(p.key),
    decreases nodes.len(),
{
    if nodes.len() > 0 {
        let shorter = nodes.drop_last();
        let x = nodes.last();
        law_postings_are_the_indexed_values(shorter, s, p);
        laws::lemma_contains_add(builder::postings(shorter, s), builder::node_postings(x, s), p);
        assert(nodes[nodes.len() - 1] == x);
        match schema::find_node(s.nodes, x.label) {
            Some(def) => {
                lemma_property_postings(x, def.properties, p);
            },
            None => {},
        }
        if exists|i: int|
            0 <= i < shorter.len() && (#[trigger] shorter[i]).label == p.label
                && shorter[i].row.id == p.id && shorter[i].row.properties.dom().contains(
                p.property,
            ) && builder::key_of(shorter[i].row.properties[p.property]) == Some(p.key) {
            let i = choose|i: int|
                0 <= i < shorter.len() && (#[trigger] shorter[i]).label == p.label
                    && shorter[i].row.id == p.id && shorter[i].row.properties.dom().contains(
                    p.property,
                ) && builder::key_of(shorter[i].row.properties[p.property]) == Some(p.key);
            assert(nodes[i] == shorter[i]);
        }
        if exists|i: int|
            0 <= i < nodes.len() && (#[trigger] nodes[i]).label == p.label && nodes[i].row.id
                == p.id && nodes[i].row.properties.dom().contains(p.property) && builder::key_of(
                nodes[i].row.properties[p.property],
            ) == Some(p.key) {
            let i = choose|i: int|
                0 <= i < nodes.len() && (#[trigger] nodes[i]).label == p.label && nodes[i].row.id
                    == p.id && nodes[i].row.properties.dom().contains(p.property)
                    && builder::key_of(nodes[i].row.properties[p.property]) == Some(p.key);
            if i < shorter.len() {
                assert(shorter[i] == nodes[i]);
            }
        }
    }
}

/// Whether a value can be compared with a literal: they have the same type, or
/// the value is a timestamp and the literal a text that may name an instant.
pub open spec fn comparable(v: PropertyValueView, l: LiteralView) -> bool {
    match l {
        LiteralView::Int64(_) => v is Int64,
        LiteralView::Bool(_) => v is Bool,
        LiteralView::String(_) => v is String || v is Timestamp,
        _ => false,
    }
}

/// A value meets a comparison exactly where its key lies in the range that the
/// comparison stands for. The range of a text is compared with timestamps as
/// that of the instant which it names; one that names none has no range.
proof fn lemma_comparison_is_a_range(v: PropertyValueView, f: PropertyFilterView)
    requires
        comparable(v, f.value),
    ensures
        ({
            let key = planner::literal_key(f.value);
            let instant = filter_eval::literal_instant(f.value);
            let compared = if v is Timestamp {
                lookup::instant_key(key, instant)
            } else {
                Some(key)
            };
            let k = builder::key_of(v)->Some_0;
            &&& builder::key_of(v) is Some
            &&& filter_eval::meets(v, f.op, f.value, instant) == match compared {
                None => false,
                Some(c) => match f.op {
                    ComparisonOp::Eq => k == c,
                    ComparisonOp::Ne => k != c,
                    _ => index::in_bounds(
                        k,
                        lookup::lower_bound(f.op, c),
                        lookup::upper_bound(f.op, c),
                    ),
                },
            }
        }),
{
    if let (PropertyValueView::String(a), LiteralView::String(b)) = (v, f.value) {
        text::lemma_lex_total(a, b);
        text::lemma_lex_irreflexive(a);
        if text::lex_lt(a, b) && text::lex_lt(b, a) {
            text::lemma_lex_transitive(a, b, a);
        }
    }
}

/// Where node ids are unique, a node of a label passes a filter by the index
/// exactly where its value meets the comparison, as long as the property is
/// indexed and the values it has under that label are of one type and can be
/// compared with the literal.
pub proof fn law_index_and_comparison_agree(
    g: IndexGeneration,
    s: SchemaView,
    partition: PartitionId,
    n: u32,
    nodes: Seq<ScannedNodeView>,
    edges: Seq<builder::ScannedEdgeView>,
    f: PropertyFilterView,
    x: int,
    timestamps: bool,
)
    requires
        builder::indexes(g, s, partition, n, nodes, edges),
        f.op != ComparisonOp::Ne,
        0 <= x < builder::owned_nodes(nodes, partition, n).len(),
        is_indexed(s, builder::owned_nodes(nodes, partition, n)[x].label, f.property),
        forall|i: int, j: int|
            0 <= i < j < builder::owned_nodes(nodes, partition, n).len() ==> (
            #[trigger] builder::owned_nodes(nodes, partition, n)[i]).row.id != (
            #[trigger] builder::owned_nodes(nodes, partition, n)[j]).row.id,
        forall|i: int|
            0 <= i < builder::owned_nodes(nodes, partition, n).len() && (
            #[trigger] builder::owned_nodes(nodes, partition, n)[i]).label
                == builder::owned_nodes(nodes, partition, n)[x].label
                && builder::owned_nodes(nodes, partition, n)[i].row.properties.dom().contains(
                f.property,
            ) ==> comparable(
                builder::owned_nodes(nodes, partition, n)[i].row.properties[f.property],
                f.value,
            ) && (builder::owned_nodes(nodes, partition, n)[i].row.properties[f.property]
                is Timestamp <==> timestamps),
    ensures
        local_executor::indexed_ids(
            g.properties,
            builder::owned_nodes(nodes, partition, n)[x].label,
            f,
        ).contains(builder::owned_nodes(nodes, partition, n)[x].row.id) <==> filter_eval::passes(
            builder::owned_nodes(nodes, partition, n)[x].row.properties,
            f,
        ),
{
    let owned = builder::owned_nodes(nodes, partition, n);
    let node = owned[x];
    let label = node.label;
    let id = node.row.id;
    let ps = builder::postings(owned, s);
    let tree = g.properties.tree(label, f.property);
    let key = planner::literal_key(f.value);
    assert(tree == builder::tree_of(ps, label, f.property));
    // What is under a key is the value of this very node.
    assert forall|k: PropertyKeyView| #[trigger] laws::under(tree, k, id)
        <==> node.row.properties.dom().contains(f.property) && builder::key_of(
        node.row.properties[f.property],
    ) == Some(k) by {
        let p = Posting { label, property: f.property, key: k, id };
        laws::law_a_tree_holds_what_was_posted(ps, label, f.property, k, id);
        law_postings_are_the_indexed_values(owned, s, p);
        if ps.contains(p) {
            let i = choose|i: int|
                0 <= i < owned.len() && (#[trigger] owned[i]).label == p.label && owned[i].row.id
                    == p.id && owned[i].row.properties.dom().contains(p.property)
                    && builder::key_of(owned[i].row.properties[p.property]) == Some(p.key);
            if i < x {
                assert(owned[i].row.id != owned[x].row.id);
            }
            if x < i {
                assert(owned[x].row.id != owned[i].row.id);
            }
        }
    }
    laws::law_trees_are_in_order(ps, label, f.property);
    let instant = filter_eval::literal_instant(f.value);
    if node.row.properties.dom().contains(f.property) {
        let v = node.row.properties[f.property];
        lemma_comparison_is_a_range(v, f);
        assert(laws::under(tree, builder::key_of(v)->Some_0, id));
        // Any key of the tree is the value of some node.
        assert(tree.len() > 0 && tree[0].ids.len() > 0);
        assert(tree[0].key is Timestamp <==> timestamps) by {
            let other = tree[0].ids[0];
            let k = tree[0].key;
            let p = Posting { label, property: f.property, key: k, id: other };
            assert(laws::under(tree, k, other));
            laws::law_a_tree_holds_what_was_posted(ps, label, f.property, k, other);
            law_postings_are_the_indexed_values(owned, s, p);
            let i = choose|i: int|
                0 <= i < owned.len() && (#[trigger] owned[i]).label == p.label && owned[i].row.id
                    == p.id && owned[i].row.properties.dom().contains(p.property)
                    && builder::key_of(owned[i].row.properties[p.property]) == Some(p.key);
            assert(comparable(owned[i].row.properties[f.property], f.value));
        }
    }
    laws::law_equality_finds_what_is_under_the_key(tree, key, id);
    if let Some(k) = lookup::instant_key(key, instant) {
        laws::law_equality_finds_what_is_under_the_key(tree, k, id);
        laws::lemma_contains_add(index::ids_at(tree, key), index::ids_at(tree, k), id);
    } else {
        assert(lookup::ids_equal_to(tree, key, instant) =~= index::ids_at(tree, key));
    }
    if let Some(c) = lookup::compared_key(tree, key, instant) {
        laws::law_a_range_finds_what_is_under_its_keys(
            tree,
            lookup::lower_bound(f.op, c),
            lookup::upper_bound(f.op, c),
            id,
        );
    }
}

} // verus!
