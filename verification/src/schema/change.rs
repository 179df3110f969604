//! What a change of schema takes away, and that this is what is held against
//! it: a label, an edge type or a property that is gone, and a property of
//! another type.
use crate::index::laws;
use crate::schema;
use crate::schema::evolution;
use crate::schema::{EdgeDefView, NodeDefView, PropertyDefView, SchemaView};
use vstd::prelude::*;

verus! {

/// That the property `name` is declared first at `j`.
pub open spec fn property_at(properties: Seq<PropertyDefView>, name: Seq<char>, j: int) -> bool {
    &&& 0 <= j < properties.len()
    &&& properties[j].name == name
    &&& forall|k: int| 0 <= k < j ==> (#[trigger] properties[k]).name != name
}

/// That `label` is declared first at `j`.
pub open spec fn node_at(nodes: Seq<NodeDefView>, label: Seq<char>, j: int) -> bool {
    &&& 0 <= j < nodes.len()
    &&& nodes[j].label == label
    &&& forall|k: int| 0 <= k < j ==> (#[trigger] nodes[k]).label != label
}

/// That `edge_type` is declared first at `j`.
pub open spec fn edge_at(edges: Seq<EdgeDefView>, edge_type: Seq<char>, j: int) -> bool {
    &&& 0 <= j < edges.len()
    &&& edges[j].edge_type == edge_type
    &&& forall|k: int| 0 <= k < j ==> (#[trigger] edges[k]).edge_type != edge_type
}

/// That `t` says what became of the property `p` of `owner`: it is gone, or
/// it is declared with another type.
pub open spec fn tells_of_property(
    owner: Seq<char>,
    p: PropertyDefView,
    to: Seq<PropertyDefView>,
    t: Seq<char>,
) -> bool {
    ||| (forall|j: int| 0 <= j < to.len() ==> (#[trigger] to[j]).name != p.name) && t == owner
        + ": property "@ + p.name + " was removed"@
    ||| exists|j: int| #[trigger]
        property_at(to, p.name, j) && to[j].ty != p.ty && t == owner + ": property "@ + p.name
            + " changed type from "@ + evolution::type_text(p.ty) + " to "@ + evolution::type_text(
            to[j].ty,
        )
}

/// That `t` says what became of one of the properties of `owner`.
pub open spec fn tells_of_properties(
    owner: Seq<char>,
    from: Seq<PropertyDefView>,
    to: Seq<PropertyDefView>,
    t: Seq<char>,
) -> bool {
    exists|i: int| 0 <= i < from.len() && tells_of_property(owner, #[trigger] from[i], to, t)
}

/// That `t` says what became of the label `n`: it is gone, or one of its
/// properties is not what it was.
pub open spec fn tells_of_node(n: NodeDefView, to: Seq<NodeDefView>, t: Seq<char>) -> bool {
    ||| (forall|j: int| 0 <= j < to.len() ==> (#[trigger] to[j]).label != n.label) && t
        == "node label "@ + n.label + " was removed"@
    ||| exists|j: int| #[trigger]
        node_at(to, n.label, j) && tells_of_properties(
            "node "@ + n.label,
            n.properties,
            to[j].properties,
            t,
        )
}

/// That `t` says what became of the edge type `e`.
pub open spec fn tells_of_edge(e: EdgeDefView, to: Seq<EdgeDefView>, t: Seq<char>) -> bool {
    ||| (forall|j: int| 0 <= j < to.len() ==> (#[trigger] to[j]).edge_type != e.edge_type) && t
        == "edge type "@ + e.edge_type + " was removed"@
    ||| exists|j: int| #[trigger]
        edge_at(to, e.edge_type, j) && tells_of_properties(
            "edge "@ + e.edge_type,
            e.properties,
            to[j].properties,
            t,
        )
}

/// The property found is the one declared first.
proof fn lemma_property_at(properties: Seq<PropertyDefView>, name: Seq<char>) -> (j: int)
    ensures
        match schema::find_property(properties, name) {
            Some(p) => property_at(properties, name, j) && properties[j] == p,
            None => forall|k: int|
                0 <= k < properties.len() ==> (#[trigger] properties[k]).name != name,
        },
    decreases properties.len(),
{
    if properties.len() == 0 {
        0
    } else if properties[0].name == name {
        0
    } else {
        let rest = properties.drop_first();
        let j: int = lemma_property_at(rest, name);
        assert forall|k: int| 1 <= k < properties.len() implies #[trigger] properties[k] == rest[k
            - 1] by {}
        j + 1
    }
}

proof fn lemma_node_at(nodes: Seq<NodeDefView>, label: Seq<char>) -> (j: int)
    ensures
        match schema::find_node(nodes, label) {
            Some(n) => node_at(nodes, label, j) && nodes[j] == n,
            None => forall|k: int| 0 <= k < nodes.len() ==> (#[trigger] nodes[k]).label != label,
        },
    decreases nodes.len(),
{
    if nodes.len() == 0 {
        0
    } else if nodes[0].label == label {
        0
    } else {
        let rest = nodes.drop_first();
        let j: int = lemma_node_at(rest, label);
        assert forall|k: int| 1 <= k < nodes.len() implies #[trigger] nodes[k] == rest[k - 1] by {}
        j + 1
    }
}

proof fn lemma_edge_at(edges: Seq<EdgeDefView>, edge_type: Seq<char>) -> (j: int)
    ensures
        match schema::find_edge(edges, edge_type) {
            Some(e) => edge_at(edges, edge_type, j) && edges[j] == e,
            None => forall|k: int|
                0 <= k < edges.len() ==> (#[trigger] edges[k]).edge_type != edge_type,
        },
    decreases edges.len(),
{
    if edges.len() == 0 {
        0
    } else if edges[0].edge_type == edge_type {
        0
    } else {
        let rest = edges.drop_first();
        let j: int = lemma_edge_at(rest, edge_type);
        assert forall|k: int| 1 <= k < edges.len() implies #[trigger] edges[k] == rest[k - 1] by {}
        j + 1
    }
}

proof fn lemma_property(
    owner: Seq<char>,
    p: PropertyDefView,
    to: Seq<PropertyDefView>,
    t: Seq<char>,
)
    ensures
        evolution::property_reason(owner, p, to).contains(t) <==> tells_of_property(
            owner,
            p,
            to,
            t,
        ),
{
    let j: int = lemma_property_at(to, p.name);
    let reasons = evolution::property_reason(owner, p, to);
    if reasons.len() > 0 {
        assert(reasons[0] == reasons[0]);
        assert(reasons.contains(t) <==> reasons[0] == t);
    }
    if let Some(q) = schema::find_property(to, p.name) {
        assert(property_at(to, p.name, j));
        assert forall|k: int| #[trigger] property_at(to, p.name, k) implies k == j by {
            if k < j {
                assert(to[k].name == p.name);
            }
            if j < k {
                assert(to[j].name == p.name);
            }
        }
        assert(to[j].name == p.name);
    }
}

proof fn lemma_properties(
    owner: Seq<char>,
    from: Seq<PropertyDefView>,
    to: Seq<PropertyDefView>,
    t: Seq<char>,
)
    ensures
        evolution::property_reasons(owner, from, to).contains(t) <==> tells_of_properties(
            owner,
            from,
            to,
            t,
        ),
    decreases from.len(),
{
    if from.len() > 0 {
        let rest = from.drop_first();
        lemma_property(owner, from[0], to, t);
        lemma_properties(owner, rest, to, t);
        laws::lemma_contains_add(
            evolution::property_reason(owner, from[0], to),
            evolution::property_reasons(owner, rest, to),
            t,
        );
        if tells_of_properties(owner, rest, to, t) {
            let i = choose|i: int|
                0 <= i < rest.len() && tells_of_property(owner, #[trigger] rest[i], to, t);
            assert(from[i + 1] == rest[i]);
        }
        if tells_of_properties(owner, from, to, t) && !tells_of_property(owner, from[0], to, t) {
            let i = choose|i: int|
                0 <= i < from.len() && tells_of_property(owner, #[trigger] from[i], to, t);
            assert(rest[i - 1] == from[i]);
        }
    }
}

proof fn lemma_node(n: NodeDefView, to: Seq<NodeDefView>, t: Seq<char>)
    ensures
        evolution::node_reason(n, to).contains(t) <==> tells_of_node(n, to, t),
{
    let j: int = lemma_node_at(to, n.label);
    let reasons = evolution::node_reason(n, to);
    match schema::find_node(to, n.label) {
        Some(other) => {
            lemma_properties("node "@ + n.label, n.properties, other.properties, t);
            assert(node_at(to, n.label, j));
            assert forall|k: int| #[trigger] node_at(to, n.label, k) implies k == j by {
                if k < j {
                    assert(to[k].label == n.label);
                }
                if j < k {
                    assert(to[j].label == n.label);
                }
            }
            assert(to[j].label == n.label);
        },
        None => {
            assert(reasons[0] == reasons[0]);
            assert(reasons.contains(t) <==> reasons[0] == t);
        },
    }
}

proof fn lemma_edge(e: EdgeDefView, to: Seq<EdgeDefView>, t: Seq<char>)
    ensures
        evolution::edge_reason(e, to).contains(t) <==> tells_of_edge(e, to, t),
{
    let j: int = lemma_edge_at(to, e.edge_type);
    let reasons = evolution::edge_reason(e, to);
    match schema::find_edge(to, e.edge_type) {
        Some(other) => {
            lemma_properties("edge "@ + e.edge_type, e.properties, other.properties, t);
            assert(edge_at(to, e.edge_type, j));
            assert forall|k: int| #[trigger] edge_at(to, e.edge_type, k) implies k == j by {
                if k < j {
                    assert(to[k].edge_type == e.edge_type);
                }
                if j < k {
                    assert(to[j].edge_type == e.edge_type);
                }
            }
            assert(to[j].edge_type == e.edge_type);
        },
        None => {
            assert(reasons[0] == reasons[0]);
            assert(reasons.contains(t) <==> reasons[0] == t);
        },
    }
}

proof fn lemma_nodes(from: Seq<NodeDefView>, to: Seq<NodeDefView>, t: Seq<char>)
    ensures
        evolution::node_reasons(from, to).contains(t) <==> exists|i: int|
            0 <= i < from.len() && tells_of_node(#[trigger] from[i], to, t),
    decreases from.len(),
{
    if from.len() > 0 {
        let rest = from.drop_first();
        lemma_node(from[0], to, t);
        lemma_nodes(rest, to, t);
        laws::lemma_contains_add(
            evolution::node_reason(from[0], to),
            evolution::node_reasons(rest, to),
            t,
        );
        assert forall|i: int| 0 <= i < rest.len() implies #[trigger] rest[i] == from[i + 1] by {}
        assert forall|i: int| 1 <= i < from.len() implies #[trigger] from[i] == rest[i - 1] by {}
        if exists|i: int| 0 <= i < rest.len() && tells_of_node(#[trigger] rest[i], to, t) {
            let i = choose|i: int|
                0 <= i < rest.len() && tells_of_node(#[trigger] rest[i], to, t);
            assert(tells_of_node(from[i + 1], to, t));
        }
    }
}

proof fn lemma_edges(from: Seq<EdgeDefView>, to: Seq<EdgeDefView>, t: Seq<char>)
    ensures
        evolution::edge_reasons(from, to).contains(t) <==> exists|i: int|
            0 <= i < from.len() && tells_of_edge(#[trigger] from[i], to, t),
    decreases from.len(),
{
    if from.len() > 0 {
        let rest = from.drop_first();
        lemma_edge(from[0], to, t);
        lemma_edges(rest, to, t);
        laws::lemma_contains_add(
            evolution::edge_reason(from[0], to),
            evolution::edge_reasons(rest, to),
            t,
        );
        assert forall|i: int| 0 <= i < rest.len() implies #[trigger] rest[i] == from[i + 1] by {}
        assert forall|i: int| 1 <= i < from.len() implies #[trigger] from[i] == rest[i - 1] by {}
        if exists|i: int| 0 <= i < rest.len() && tells_of_edge(#[trigger] rest[i], to, t) {
            let i = choose|i: int|
                0 <= i < rest.len() && tells_of_edge(#[trigger] rest[i], to, t);
            assert(tells_of_edge(from[i + 1], to, t));
        }
    }
}

/// A reason is given against a change of schema exactly where it says what
/// became of a label, an edge type or a property that was declared before and
/// is gone, or is declared with another type. Nothing that is added, and
/// nothing that stays, gives a reason.
pub proof fn law_reasons_tell_what_is_taken_away(from: SchemaView, to: SchemaView, t: Seq<char>)
    ensures
        evolution::change_reasons(from, to).contains(t) <==> (exists|i: int|
            0 <= i < from.nodes.len() && tells_of_node(#[trigger] from.nodes[i], to.nodes, t)) || (
        exists|i: int|
            0 <= i < from.edges.len() && tells_of_edge(#[trigger] from.edges[i], to.edges, t)),
{
    lemma_nodes(from.nodes, to.nodes, t);
    lemma_edges(from.edges, to.edges, t);
    laws::lemma_contains_add(
        evolution::node_reasons(from.nodes, to.nodes),
        evolution::edge_reasons(from.edges, to.edges),
        t,
    );
}

/// The reasons come in the order of the declarations, and a property gives no
/// more than one.
pub proof fn law_reasons_come_in_order(
    owner: Seq<char>,
    a: Seq<PropertyDefView>,
    p: PropertyDefView,
    b: Seq<PropertyDefView>,
    to: Seq<PropertyDefView>,
)
    ensures
        evolution::property_reasons(owner, a.push(p) + b, to) == evolution::property_reasons(
            owner,
            a,
            to,
        ) + evolution::property_reasons(owner, seq![p], to) + evolution::property_reasons(
            owner,
            b,
            to,
        ),
        evolution::property_reasons(owner, seq![p], to).len() <= 1,
    decreases a.len(),
{
    reveal_with_fuel(evolution::property_reasons, 2);
    let one = evolution::property_reasons(owner, seq![p], to);
    assert(seq![p].drop_first() =~= Seq::<PropertyDefView>::empty());
    assert(one =~= evolution::property_reason(owner, p, to));
    let whole = a.push(p) + b;
    if a.len() == 0 {
        assert(whole.drop_first() =~= b);
        assert(evolution::property_reasons(owner, a, to) + one =~= one);
    } else {
        let rest = a.drop_first();
        law_reasons_come_in_order(owner, rest, p, b, to);
        assert(whole.drop_first() =~= rest.push(p) + b);
        let first = evolution::property_reason(owner, a[0], to);
        assert(whole[0] == a[0]);
        assert(first + (evolution::property_reasons(owner, rest, to) + one
            + evolution::property_reasons(owner, b, to)) =~= (first + evolution::property_reasons(
            owner,
            rest,
            to,
        )) + one + evolution::property_reasons(owner, b, to));
    }
}

} // verus!
