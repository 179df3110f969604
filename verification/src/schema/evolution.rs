//! Whether a schema can replace another one without a migration.
//!
//! Additions are compatible. A label, an edge type or a property that is
//! gone, or a property of another type, is not. A renamed property is a
//! property that is gone.
use crate::schema;
use crate::schema::{
    EdgeDefView, NodeDefView, PropertyDef, PropertyDefView, ScalarType, Schema, SchemaView,
};
use crate::text;
use vstd::prelude::*;
use vstd::string::*;

verus! {

/// The verdict on a change of schema.
#[derive(Clone, Debug, PartialEq, Eq)]
pub enum EvolutionKind {
    Compatible,
    Incompatible { reasons: Vec<String> },
}

/// A property type as text.
pub open spec fn type_text(ty: ScalarType) -> Seq<char>
    decreases ty,
{
    match ty {
        ScalarType::Int64 => "Int64"@,
        ScalarType::Float64 => "Float64"@,
        ScalarType::Bool => "Bool"@,
        ScalarType::String => "String"@,
        ScalarType::Timestamp => "Timestamp"@,
        ScalarType::Bytes => "Bytes"@,
        ScalarType::List(element) => "List("@ + type_text(*element) + ")"@,
        ScalarType::Vector { dim } => "Vector { dim: "@ + text::decimal_text(dim as int) + " }"@,
    }
}

pub(crate) fn type_string(ty: &ScalarType) -> (r: String)
    ensures
        r@ == type_text(*ty),
    decreases ty,
{
    match ty {
        ScalarType::Int64 => "Int64".to_owned(),
        ScalarType::Float64 => "Float64".to_owned(),
        ScalarType::Bool => "Bool".to_owned(),
        ScalarType::String => "String".to_owned(),
        ScalarType::Timestamp => "Timestamp".to_owned(),
        ScalarType::Bytes => "Bytes".to_owned(),
        ScalarType::List(element) => {
            let mut r: String = "List(".to_owned();
            let inner = type_string(element);
            r.append(inner.as_str());
            r.append(")");
            r
        },
        ScalarType::Vector { dim } => {
            let mut r: String = "Vector { dim: ".to_owned();
            let digits = text::decimal_string(*dim as u64);
            r.append(digits.as_str());
            r.append(" }");
            r
        },
    }
}

/// Whether two property types are the same.
pub fn same_type(a: &ScalarType, b: &ScalarType) -> (r: bool)
    ensures
        r == (*a == *b),
    decreases a,
{
    match (a, b) {
        (ScalarType::Int64, ScalarType::Int64) => true,
        (ScalarType::Float64, ScalarType::Float64) => true,
        (ScalarType::Bool, ScalarType::Bool) => true,
        (ScalarType::String, ScalarType::String) => true,
        (ScalarType::Timestamp, ScalarType::Timestamp) => true,
        (ScalarType::Bytes, ScalarType::Bytes) => true,
        (ScalarType::List(x), ScalarType::List(y)) => same_type(x, y),
        (ScalarType::Vector { dim: x }, ScalarType::Vector { dim: y }) => *x == *y,
        _ => false,
    }
}

/// What is held against one property of `owner`.
pub open spec fn property_reason(
    owner: Seq<char>,
    from: PropertyDefView,
    to: Seq<PropertyDefView>,
) -> Seq<Seq<char>> {
    match schema::find_property(to, from.name) {
        Some(p) => if p.ty != from.ty {
            seq![
                owner + ": property "@ + from.name + " changed type from "@ + type_text(from.ty)
                    + " to "@ + type_text(p.ty),
            ]
        } else {
            seq![]
        },
        None => seq![owner + ": property "@ + from.name + " was removed"@],
    }
}

/// What is held against the properties of `owner`, in their order.
pub open spec fn property_reasons(
    owner: Seq<char>,
    from: Seq<PropertyDefView>,
    to: Seq<PropertyDefView>,
) -> Seq<Seq<char>>
    decreases from.len(),
{
    if from.len() == 0 {
        seq![]
    } else {
        property_reason(owner, from[0], to) + property_reasons(owner, from.drop_first(), to)
    }
}

pub open spec fn node_reason(from: NodeDefView, to: Seq<NodeDefView>) -> Seq<Seq<char>> {
    match schema::find_node(to, from.label) {
        Some(n) => property_reasons("node "@ + from.label, from.properties, n.properties),
        None => seq!["node label "@ + from.label + " was removed"@],
    }
}

pub open spec fn node_reasons(from: Seq<NodeDefView>, to: Seq<NodeDefView>) -> Seq<Seq<char>>
    decreases from.len(),
{
    if from.len() == 0 {
        seq![]
    } else {
        node_reason(from[0], to) + node_reasons(from.drop_first(), to)
    }
}

pub open spec fn edge_reason(from: EdgeDefView, to: Seq<EdgeDefView>) -> Seq<Seq<char>> {
    match schema::find_edge(to, from.edge_type) {
        Some(e) => property_reasons("edge "@ + from.edge_type, from.properties, e.properties),
        None => seq!["edge type "@ + from.edge_type + " was removed"@],
    }
}

pub open spec fn edge_reasons(from: Seq<EdgeDefView>, to: Seq<EdgeDefView>) -> Seq<Seq<char>>
    decreases from.len(),
{
    if from.len() == 0 {
        seq![]
    } else {
        edge_reason(from[0], to) + edge_reasons(from.drop_first(), to)
    }
}

/// Everything that is held against a change of schema.
pub open spec fn change_reasons(from: SchemaView, to: SchemaView) -> Seq<Seq<char>> {
    node_reasons(from.nodes, to.nodes) + edge_reasons(from.edges, to.edges)
}

/// That every property of `from` is kept in `to`, with its type.
pub open spec fn keeps_properties(from: Seq<PropertyDefView>, to: Seq<PropertyDefView>) -> bool {
    forall|i: int|
        0 <= i < from.len() ==> (schema::find_property(to, (#[trigger] from[i]).name) matches Some(
            p,
        ) && p.ty == from[i].ty)
}

/// That a change of schema takes nothing away.
pub open spec fn keeps(from: SchemaView, to: SchemaView) -> bool {
    &&& forall|i: int|
        0 <= i < from.nodes.len() ==> (schema::find_node(
            to.nodes,
            (#[trigger] from.nodes[i]).label,
        ) matches Some(n) && keeps_properties(from.nodes[i].properties, n.properties))
    &&& forall|i: int|
        0 <= i < from.edges.len() ==> (schema::find_edge(
            to.edges,
            (#[trigger] from.edges[i]).edge_type,
        ) matches Some(e) && keeps_properties(from.edges[i].properties, e.properties))
}

proof fn lemma_property_reasons(owner: Seq<char>, from: Seq<PropertyDefView>, to: Seq<PropertyDefView>)
    ensures
        property_reasons(owner, from, to).len() == 0 <==> keeps_properties(from, to),
    decreases from.len(),
{
    if from.len() > 0 {
        let tail = from.drop_first();
        lemma_property_reasons(owner, tail, to);
        if keeps_properties(from, to) {
            assert(from[0] == from[0]);
            assert forall|i: int| 0 <= i < tail.len() implies (schema::find_property(
                to,
                (#[trigger] tail[i]).name,
            ) matches Some(p) && p.ty == tail[i].ty) by {
                assert(tail[i] == from[i + 1]);
            }
        }
        if property_reasons(owner, from, to).len() == 0 {
            assert forall|i: int| 0 <= i < from.len() implies (schema::find_property(
                to,
                (#[trigger] from[i]).name,
            ) matches Some(p) && p.ty == from[i].ty) by {
                if i > 0 {
                    assert(tail[i - 1] == from[i]);
                }
            }
        }
    }
}

proof fn lemma_node_reasons(from: Seq<NodeDefView>, to: Seq<NodeDefView>)
    ensures
        node_reasons(from, to).len() == 0 <==> forall|i: int|
            0 <= i < from.len() ==> (schema::find_node(
                to,
                (#[trigger] from[i]).label,
            ) matches Some(n) && keeps_properties(from[i].properties, n.properties)),
    decreases from.len(),
{
    if from.len() > 0 {
        let tail = from.drop_first();
        lemma_node_reasons(tail, to);
        if let Some(n) = schema::find_node(to, from[0].label) {
            lemma_property_reasons("node "@ + from[0].label, from[0].properties, n.properties);
        }
        assert forall|i: int| 0 <= i < tail.len() implies #[trigger] tail[i] == from[i + 1] by {}
        assert forall|i: int| 1 <= i < from.len() implies #[trigger] from[i] == tail[i - 1] by {}
        if node_reasons(from, to).len() == 0 {
            assert(node_reason(from[0], to).len() == 0);
        } else if node_reason(from[0], to).len() > 0 {
            assert(from[0] == from[0]);
        } else {
            let i = choose|i: int|
                0 <= i < tail.len() && !(schema::find_node(
                    to,
                    (#[trigger] tail[i]).label,
                ) matches Some(n) && keeps_properties(tail[i].properties, n.properties));
            assert(from[i + 1] == tail[i]);
        }
    }
}

proof fn lemma_edge_reasons(from: Seq<EdgeDefView>, to: Seq<EdgeDefView>)
    ensures
        edge_reasons(from, to).len() == 0 <==> forall|i: int|
            0 <= i < from.len() ==> (schema::find_edge(
                to,
                (#[trigger] from[i]).edge_type,
            ) matches Some(e) && keeps_properties(from[i].properties, e.properties)),
    decreases from.len(),
{
    if from.len() > 0 {
        let tail = from.drop_first();
        lemma_edge_reasons(tail, to);
        if let Some(e) = schema::find_edge(to, from[0].edge_type) {
            lemma_property_reasons("edge "@ + from[0].edge_type, from[0].properties, e.properties);
        }
        assert forall|i: int| 0 <= i < tail.len() implies #[trigger] tail[i] == from[i + 1] by {}
        assert forall|i: int| 1 <= i < from.len() implies #[trigger] from[i] == tail[i - 1] by {}
        if edge_reasons(from, to).len() == 0 {
            assert(edge_reason(from[0], to).len() == 0);
        } else if edge_reason(from[0], to).len() > 0 {
            assert(from[0] == from[0]);
        } else {
            let i = choose|i: int|
                0 <= i < tail.len() && !(schema::find_edge(
                    to,
                    (#[trigger] tail[i]).edge_type,
                ) matches Some(e) && keeps_properties(tail[i].properties, e.properties));
            assert(from[i + 1] == tail[i]);
        }
    }
}

/// A change of schema is compatible exactly where it takes nothing away:
/// every label, edge type and property is kept, properties with their type.
/// Additions are never held against a change.
pub proof fn law_compatible_changes_take_nothing_away(from: SchemaView, to: SchemaView)
    ensures
        change_reasons(from, to).len() == 0 <==> keeps(from, to),
{
    lemma_node_reasons(from.nodes, to.nodes);
    lemma_edge_reasons(from.edges, to.edges);
}

/// That no property is declared twice.
pub open spec fn distinct_names(properties: Seq<PropertyDefView>) -> bool {
    forall|i: int, j: int|
        0 <= i < j < properties.len() ==> (#[trigger] properties[i]).name != (
        #[trigger] properties[j]).name
}

proof fn lemma_find_property_at(properties: Seq<PropertyDefView>, i: int)
    requires
        distinct_names(properties),
        0 <= i < properties.len(),
    ensures
        schema::find_property(properties, properties[i].name) == Some(properties[i]),
    decreases properties.len(),
{
    if i > 0 {
        assert(properties[0].name != properties[i].name);
        let tail = properties.drop_first();
        assert forall|a: int, b: int| 0 <= a < b < tail.len() implies (#[trigger] tail[a]).name != (
        #[trigger] tail[b]).name by {
            assert(properties[a + 1].name != properties[b + 1].name);
        }
        lemma_find_property_at(tail, i - 1);
    }
}

pub proof fn lemma_find_node_at(nodes: Seq<NodeDefView>, i: int)
    requires
        schema::sorted_nodes(nodes),
        0 <= i < nodes.len(),
    ensures
        schema::find_node(nodes, nodes[i].label) == Some(nodes[i]),
    decreases nodes.len(),
{
    if i > 0 {
        assert(text::lex_lt(nodes[0].label, nodes[i].label));
        text::lemma_lex_irreflexive(nodes[i].label);
        let tail = nodes.drop_first();
        assert forall|a: int, b: int| 0 <= a < b < tail.len() implies text::lex_lt(
            (#[trigger] tail[a]).label,
            (#[trigger] tail[b]).label,
        ) by {
            assert(text::lex_lt(nodes[a + 1].label, nodes[b + 1].label));
        }
        lemma_find_node_at(tail, i - 1);
    }
}

pub proof fn lemma_find_edge_at(edges: Seq<EdgeDefView>, i: int)
    requires
        schema::sorted_edges(edges),
        0 <= i < edges.len(),
    ensures
        schema::find_edge(edges, edges[i].edge_type) == Some(edges[i]),
    decreases edges.len(),
{
    if i > 0 {
        assert(text::lex_lt(edges[0].edge_type, edges[i].edge_type));
        text::lemma_lex_irreflexive(edges[i].edge_type);
        let tail = edges.drop_first();
        assert forall|a: int, b: int| 0 <= a < b < tail.len() implies text::lex_lt(
            (#[trigger] tail[a]).edge_type,
            (#[trigger] tail[b]).edge_type,
        ) by {
            assert(text::lex_lt(edges[a + 1].edge_type, edges[b + 1].edge_type));
        }
        lemma_find_edge_at(tail, i - 1);
    }
}

proof fn lemma_keeps_itself(properties: Seq<PropertyDefView>)
    requires
        distinct_names(properties),
    ensures
        keeps_properties(properties, properties),
{
    assert forall|i: int| 0 <= i < properties.len() implies (schema::find_property(
        properties,
        (#[trigger] properties[i]).name,
    ) matches Some(p) && p.ty == properties[i].ty) by {
        lemma_find_property_at(properties, i);
    }
}

/// A schema is compatible with itself, unless it declares a property twice
/// under one label or edge type.
pub proof fn law_identical_schemas_are_compatible(s: SchemaView)
    requires
        s.wf(),
        forall|i: int| 0 <= i < s.nodes.len() ==> distinct_names((#[trigger] s.nodes[i]).properties),
        forall|i: int| 0 <= i < s.edges.len() ==> distinct_names((#[trigger] s.edges[i]).properties),
    ensures
        change_reasons(s, s).len() == 0,
{
    assert forall|i: int| 0 <= i < s.nodes.len() implies (schema::find_node(
        s.nodes,
        (#[trigger] s.nodes[i]).label,
    ) matches Some(n) && keeps_properties(s.nodes[i].properties, n.properties)) by {
        lemma_find_node_at(s.nodes, i);
        lemma_keeps_itself(s.nodes[i].properties);
    }
    assert forall|i: int| 0 <= i < s.edges.len() implies (schema::find_edge(
        s.edges,
        (#[trigger] s.edges[i]).edge_type,
    ) matches Some(e) && keeps_properties(s.edges[i].properties, e.properties)) by {
        lemma_find_edge_at(s.edges, i);
        lemma_keeps_itself(s.edges[i].properties);
    }
    law_compatible_changes_take_nothing_away(s, s);
}

/// Adds what is held against the properties of `owner` to `reasons`.
fn diff_properties(owner: &str, from: &Vec<PropertyDef>, to: &Vec<PropertyDef>, reasons: &mut Vec<String>)
    ensures
        text::views(final(reasons)@) == text::views(old(reasons)@) + property_reasons(
            owner@,
            text::views(from@),
            text::views(to@),
        ),
{
    let ghost before = text::views(reasons@);
    let ghost all = text::views(from@);
    let ghost others = text::views(to@);
    let mut i: usize = 0;
    assert(all.skip(0) =~= all);
    while i < from.len()
        invariant
            i <= from.len(),
            all == text::views(from@),
            others == text::views(to@),
            before + property_reasons(owner@, all, others) == text::views(reasons@)
                + property_reasons(owner@, all.skip(i as int), others),
        decreases from.len() - i,
    {
        let p = &from[i];
        let ghost rest = property_reasons(owner@, all.skip(i + 1), others);
        let ghost earlier = reasons@;
        assert(all.skip(i as int)[0] == p@);
        assert(all.skip(i as int).drop_first() =~= all.skip(i + 1));
        match schema::property_def(to, p.name.as_str()) {
            Some(q) => {
                if !same_type(&q.ty, &p.ty) {
                    let mut reason: String = owner.to_owned();
                    reason.append(": property ");
                    reason.append(p.name.as_str());
                    reason.append(" changed type from ");
                    let old_type = type_string(&p.ty);
                    reason.append(old_type.as_str());
                    reason.append(" to ");
                    let new_type = type_string(&q.ty);
                    reason.append(new_type.as_str());
                    proof {
                        text::lemma_views_push(reasons@, reason);
                    }
                    reasons.push(reason);
                }
            },
            None => {
                let mut reason: String = owner.to_owned();
                reason.append(": property ");
                reason.append(p.name.as_str());
                reason.append(" was removed");
                proof {
                    text::lemma_views_push(reasons@, reason);
                }
                reasons.push(reason);
            },
        }
        assert(text::views(reasons@) =~= text::views(earlier) + property_reason(
            owner@,
            p@,
            others,
        ));
        assert(text::views(earlier) + (property_reason(owner@, p@, others) + rest)
            =~= text::views(reasons@) + rest);
        i = i + 1;
    }
    assert(text::views(reasons@) + Seq::<Seq<char>>::empty() =~= text::views(reasons@));
}

/// Judges changes of schema.
pub trait SchemaEvolution {
    fn diff(&self, from: &Schema, to: &Schema) -> EvolutionKind;
}

/// Judges by what is taken away.
pub struct SpecSchemaEvolution;

impl SchemaEvolution for SpecSchemaEvolution {
    /// Compatible where nothing is held against the change; otherwise every
    /// reason, nodes before edges, in the order of the first schema.
    fn diff(&self, from: &Schema, to: &Schema) -> (r: EvolutionKind)
        ensures
            match r {
                EvolutionKind::Compatible => change_reasons(from@, to@).len() == 0,
                EvolutionKind::Incompatible { reasons } => text::views(reasons@) == change_reasons(
                    from@,
                    to@,
                ) && reasons@.len() > 0,
            },
    {
        let mut reasons: Vec<String> = Vec::new();
        let ghost nodes = from@.nodes;
        let mut i: usize = 0;
        assert(nodes.skip(0) =~= nodes);
        assert(text::views(reasons@) + node_reasons(nodes, to@.nodes) =~= node_reasons(
            nodes,
            to@.nodes,
        ));
        while i < from.nodes.len()
            invariant
                i <= from.nodes.len(),
                nodes == from@.nodes,
                node_reasons(nodes, to@.nodes) == text::views(reasons@) + node_reasons(
                    nodes.skip(i as int),
                    to@.nodes,
                ),
            decreases from.nodes.len() - i,
        {
            let node = &from.nodes[i];
            let ghost rest = node_reasons(nodes.skip(i + 1), to@.nodes);
            let ghost earlier = reasons@;
            assert(nodes.skip(i as int)[0] == node@);
            assert(nodes.skip(i as int).drop_first() =~= nodes.skip(i + 1));
            match to.node_def(&node.label) {
                Some(other) => {
                    let mut owner: String = "node ".to_owned();
                    owner.append(node.label.0.as_str());
                    diff_properties(owner.as_str(), &node.properties, &other.properties, &mut reasons);
                },
                None => {
                    let mut reason: String = "node label ".to_owned();
                    reason.append(node.label.0.as_str());
                    reason.append(" was removed");
                    proof {
                        text::lemma_views_push(reasons@, reason);
                    }
                    reasons.push(reason);
                },
            }
            assert(text::views(reasons@) =~= text::views(earlier) + node_reason(node@, to@.nodes));
            assert(text::views(earlier) + (node_reason(node@, to@.nodes) + rest) =~= text::views(
                reasons@,
            ) + rest);
            i = i + 1;
        }
        let ghost edges = from@.edges;
        let mut j: usize = 0;
        assert(edges.skip(0) =~= edges);
        assert(text::views(reasons@) + Seq::<Seq<char>>::empty() =~= text::views(reasons@));
        while j < from.edges.len()
            invariant
                j <= from.edges.len(),
                edges == from@.edges,
                change_reasons(from@, to@) == text::views(reasons@) + edge_reasons(
                    edges.skip(j as int),
                    to@.edges,
                ),
            decreases from.edges.len() - j,
        {
            let edge = &from.edges[j];
            let ghost rest = edge_reasons(edges.skip(j + 1), to@.edges);
            let ghost earlier = reasons@;
            assert(edges.skip(j as int)[0] == edge@);
            assert(edges.skip(j as int).drop_first() =~= edges.skip(j + 1));
            match to.edge_def(&edge.edge_type) {
                Some(other) => {
                    let mut owner: String = "edge ".to_owned();
                    owner.append(edge.edge_type.0.as_str());
                    diff_properties(owner.as_str(), &edge.properties, &other.properties, &mut reasons);
                },
                None => {
                    let mut reason: String = "edge type ".to_owned();
                    reason.append(edge.edge_type.0.as_str());
                    reason.append(" was removed");
                    proof {
                        text::lemma_views_push(reasons@, reason);
                    }
                    reasons.push(reason);
                },
            }
            assert(text::views(reasons@) =~= text::views(earlier) + edge_reason(edge@, to@.edges));
            assert(text::views(earlier) + (edge_reason(edge@, to@.edges) + rest) =~= text::views(
                reasons@,
            ) + rest);
            j = j + 1;
        }
        assert(text::views(reasons@) + Seq::<Seq<char>>::empty() =~= text::views(reasons@));
        if reasons.len() == 0 {
            EvolutionKind::Compatible
        } else {
            EvolutionKind::Incompatible { reasons }
        }
    }
}

} // verus!
