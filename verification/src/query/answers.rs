//! Which rows answer a query, said of the nodes and the edges of a graph and of
//! the values that they have.
//!
//! Nothing here is shared with what plans, looks up or filters: a row answers a
//! query where its nodes are joined by edges of the graph as the pattern draws
//! them, and where the values of their properties compare as it says.
use crate::cluster::PartitionMap;
use crate::dsl::validator;
use crate::dsl::{
    ComparisonOp, Direction, EdgePatternView, ExistsSubqueryView, HopRange, NodePatternView,
    PatternStepView, PropertyFilterView, PropertyRefView, QueryView, WhereConditionView,
};
use crate::index::builder;
use crate::index::builder::{ScannedEdgeView, ScannedNodeView};
use crate::index::{EdgeRecordView, IndexGeneration, PartitionId};
use crate::query::agreement;
use crate::query::comparing;
use crate::query::comparing::{compare, gives, written};
use crate::query::distributed;
use crate::query::distributed::{PartitionRpc, PlanRun};
use crate::query::filter_eval;
use crate::query::hydration;
use crate::query::meaning;
use crate::query::planner;
use crate::query::whole_plan;
use crate::query::BindingView;
use crate::schema::partitioning;
use crate::schema::{NodeId, SchemaView};
use crate::storage::PropertyValueView;
use vstd::prelude::*;

verus! {

/// That the node or the edge that a row binds has a property with a value.
pub open spec fn row_has(
    nodes: Seq<ScannedNodeView>,
    edges: Seq<ScannedEdgeView>,
    row: BindingView,
    alias: Seq<char>,
    property: Seq<char>,
    v: PropertyValueView,
) -> bool {
    if row.nodes.dom().contains(alias) {
        exists|i: int|
            0 <= i < nodes.len() && (#[trigger] nodes[i]).row.id == row.nodes[alias]
                && nodes[i].row.properties.dom().contains(property)
                && nodes[i].row.properties[property] == v
    } else {
        row.edges.dom().contains(alias) && exists|i: int|
            0 <= i < edges.len() && (#[trigger] edges[i]).row.id == row.edges[alias]
                && edges[i].row.properties.dom().contains(property)
                && edges[i].row.properties[property] == v
    }
}

/// That what a row binds has a property that compares with a literal.
pub open spec fn row_compares(
    nodes: Seq<ScannedNodeView>,
    edges: Seq<ScannedEdgeView>,
    row: BindingView,
    alias: Seq<char>,
    f: PropertyFilterView,
) -> bool {
    exists|v: PropertyValueView| #[trigger]
        row_has(nodes, edges, row, alias, f.property, v) && compare(f.op, v, written(f.value))
}

/// That an edge is of the wanted type and leads from one node to another one,
/// or back where it is walked against its direction.
pub open spec fn leads(
    e: ScannedEdgeView,
    direction: Direction,
    edge_type: Option<Seq<char>>,
    from: NodeId,
    to: NodeId,
) -> bool {
    &&& match direction {
        Direction::Outgoing => e.row.src == from && e.row.dst == to,
        Direction::Incoming => e.row.src == to && e.row.dst == from,
    }
    &&& edge_type matches Some(t) ==> e.edge_type == t
}

/// That a walk over edges of the graph, of a length within the range, leads
/// from one node to another one.
pub open spec fn reaches(
    edges: Seq<ScannedEdgeView>,
    direction: Direction,
    edge_type: Option<Seq<char>>,
    hops: HopRange,
    from: NodeId,
    to: NodeId,
) -> bool {
    exists|stops: Seq<NodeId>| #[trigger]
        walks(edges, direction, edge_type, stops) && stops.len() > 1 && hops.min + 1 <= stops.len()
            <= hops.max + 1 && stops[0] == from && stops[stops.len() - 1] == to
}

/// That an edge of the graph leads from one node to another one.
pub open spec fn one_leads(
    edges: Seq<ScannedEdgeView>,
    direction: Direction,
    edge_type: Option<Seq<char>>,
    from: NodeId,
    to: NodeId,
) -> bool {
    exists|i: int|
        0 <= i < edges.len() && leads(#[trigger] edges[i], direction, edge_type, from, to)
}

/// That an edge of the graph leads from each stop to the next one.
pub open spec fn walks(
    edges: Seq<ScannedEdgeView>,
    direction: Direction,
    edge_type: Option<Seq<char>>,
    stops: Seq<NodeId>,
) -> bool {
    forall|k: int|
        0 < k < stops.len() ==> one_leads(
            edges,
            direction,
            edge_type,
            stops[k - 1],
            #[trigger] stops[k],
        )
}

/// That two nodes are joined as an edge of the pattern says: by the one edge
/// that the row names, or by a walk.
pub open spec fn is_drawn(
    edges: Seq<ScannedEdgeView>,
    row: BindingView,
    from: NodePatternView,
    e: EdgePatternView,
    to: NodePatternView,
) -> bool {
    match e.alias {
        Some(alias) => exists|i: int|
            0 <= i < edges.len() && (#[trigger] edges[i]).row.id == row.edges[alias] && leads(
                edges[i],
                e.direction,
                e.edge_type,
                row.nodes[from.alias],
                row.nodes[to.alias],
            ),
        None => reaches(
            edges,
            e.direction,
            e.edge_type,
            e.hops,
            row.nodes[from.alias],
            row.nodes[to.alias],
        ),
    }
}

/// That a value of the row and one of an edge compare, the one of the row
/// first. A text of the row compares with a timestamp of the edge by the
/// instant that it names; a timestamp of the row compares with nothing.
pub open spec fn compare_with_edge(op: ComparisonOp, v: PropertyValueView, w: PropertyValueView) -> bool {
    match (v, w) {
        (PropertyValueView::String(s), PropertyValueView::Timestamp(t)) =>
            filter_eval::rfc3339_micros(s) matches Some(i) && comparing::says(op, i < t, i == t),
        (PropertyValueView::Timestamp(_), _) => false,
        _ => compare(op, v, w),
    }
}

/// That an edge meets a condition of a `NOT EXISTS` that calls it `inner`.
/// Where the condition compares it with the row, the row has the property with
/// a value that compares with the one of the edge.
pub open spec fn edge_satisfies(
    nodes: Seq<ScannedNodeView>,
    edges: Seq<ScannedEdgeView>,
    row: BindingView,
    e: ScannedEdgeView,
    inner: Option<Seq<char>>,
    c: WhereConditionView,
) -> bool {
    match c {
        WhereConditionView::Property(alias, f) => inner == Some(alias) ==> (
        e.row.properties.dom().contains(f.property) && compare(
            f.op,
            e.row.properties[f.property],
            written(f.value),
        )),
        WhereConditionView::PropertyComparison { left, op, right } => if inner == Some(left.alias) {
            e.row.properties.dom().contains(left.property) && exists|v: PropertyValueView|
                #[trigger]
                row_has(nodes, edges, row, right.alias, right.property, v) && compare(
                    op,
                    e.row.properties[left.property],
                    v,
                )
        } else if inner == Some(right.alias) {
            e.row.properties.dom().contains(right.property) && exists|v: PropertyValueView|
                #[trigger]
                row_has(nodes, edges, row, left.alias, left.property, v) && compare_with_edge(
                    op,
                    v,
                    e.row.properties[right.property],
                )
        } else {
            true
        },
        _ => true,
    }
}

/// That an edge of the graph is one that a `NOT EXISTS` rules out.
pub open spec fn is_ruled_out(
    nodes: Seq<ScannedNodeView>,
    edges: Seq<ScannedEdgeView>,
    row: BindingView,
    sub: ExistsSubqueryView,
    e: ScannedEdgeView,
) -> bool {
    let drawn = sub.pattern.steps[1]->Edge_0;
    &&& leads(
        e,
        drawn.direction,
        drawn.edge_type,
        row.nodes[(sub.pattern.steps[0]->Node_0).alias],
        row.nodes[(sub.pattern.steps[2]->Node_0).alias],
    )
    &&& forall|j: int|
        0 <= j < sub.where_conditions.len() ==> edge_satisfies(
            nodes,
            edges,
            row,
            e,
            drawn.alias,
            #[trigger] sub.where_conditions[j],
        )
}

/// That a row satisfies a condition: a property of what it binds compares with
/// a literal, or no edge of the graph is ruled out. A comparison of aliases, or
/// of two properties, restricts nothing.
pub open spec fn satisfies(
    nodes: Seq<ScannedNodeView>,
    edges: Seq<ScannedEdgeView>,
    row: BindingView,
    c: WhereConditionView,
) -> bool {
    match c {
        WhereConditionView::Property(alias, f) => row_compares(nodes, edges, row, alias, f),
        WhereConditionView::NotExists(sub) => forall|i: int|
            0 <= i < edges.len() ==> !is_ruled_out(nodes, edges, row, sub, #[trigger] edges[i]),
        _ => true,
    }
}

/// That a row answers a query: it binds the names of the pattern, its first
/// node has the label, its nodes have the properties, they are joined as drawn,
/// and every condition is satisfied.
pub open spec fn is_answer(
    q: QueryView,
    nodes: Seq<ScannedNodeView>,
    edges: Seq<ScannedEdgeView>,
    row: BindingView,
) -> bool {
    let steps = q.pattern.steps;
    let first = steps[0]->Node_0;
    &&& forall|a: Seq<char>| #[trigger]
        row.nodes.dom().contains(a) <==> exists|k: int|
            0 <= k < steps.len() && (#[trigger] steps[k]) is Node && (steps[k]->Node_0).alias == a
    &&& forall|a: Seq<char>| #[trigger]
        row.edges.dom().contains(a) <==> exists|k: int|
            0 <= k < steps.len() && (#[trigger] steps[k]) is Edge && (steps[k]->Edge_0).alias
                == Some(a)
    &&& exists|i: int|
        0 <= i < nodes.len() && (#[trigger] nodes[i]).row.id == row.nodes[first.alias] && Some(
            nodes[i].label,
        ) == first.label
    &&& forall|k: int, j: int|
        0 <= k < steps.len() && steps[k] is Node && 0 <= j
            < (steps[k]->Node_0).property_filters.len() ==> row_compares(
            nodes,
            edges,
            row,
            (steps[k]->Node_0).alias,
            #[trigger] (steps[k]->Node_0).property_filters[j],
        )
    &&& forall|k: int|
        0 <= k < steps.len() && (#[trigger] steps[k]) is Edge ==> is_drawn(
            edges,
            row,
            steps[k - 1]->Node_0,
            steps[k]->Edge_0,
            steps[k + 1]->Node_0,
        )
    &&& forall|i: int|
        0 <= i < q.where_conditions.len() ==> satisfies(
            nodes,
            edges,
            row,
            #[trigger] q.where_conditions[i],
        )
}

proof fn lemma_edge_record_is_row(edges: Seq<ScannedEdgeView>, id: u64)
    requires
        agreement::unique_edges(edges),
    ensures
        builder::edge_record_map(edges, PartitionId(0), 1).dom().contains(id) <==> exists|i: int|
            0 <= i < edges.len() && (#[trigger] edges[i]).row.id.0 == id,
        forall|i: int|
            0 <= i < edges.len() && (#[trigger] edges[i]).row.id.0 == id
                ==> builder::edge_record_map(edges, PartitionId(0), 1)[id] == (EdgeRecordView {
                edge_type: edges[i].edge_type,
                properties: edges[i].row.properties,
            }),
    decreases edges.len(),
{
    if edges.len() > 0 {
        let shorter = edges.drop_last();
        assert forall|i: int, j: int| 0 <= i < j < shorter.len() implies (
        #[trigger] shorter[i]).row.id != (#[trigger] shorter[j]).row.id by {
            assert(edges[i].row.id != edges[j].row.id);
        }
        lemma_edge_record_is_row(shorter, id);
        assert(edges[edges.len() - 1] == edges.last());
        partitioning::law_every_node_has_one_owner(edges.last().row.src, 1);
        assert(partitioning::owner(edges.last().row.src, 1) == 0);
        if exists|i: int| 0 <= i < shorter.len() && (#[trigger] shorter[i]).row.id.0 == id {
            let i = choose|i: int| 0 <= i < shorter.len() && (#[trigger] shorter[i]).row.id.0 == id;
            assert(edges[i] == shorter[i]);
        }
        assert forall|i: int| 0 <= i < edges.len() && (#[trigger] edges[i]).row.id.0 == id implies
            builder::edge_record_map(edges, PartitionId(0), 1)[id] == (EdgeRecordView {
            edge_type: edges[i].edge_type,
            properties: edges[i].row.properties,
        }) by {
            if i < shorter.len() {
                assert(shorter[i] == edges[i]);
                assert(edges[i].row.id != edges[edges.len() - 1].row.id);
            }
        }
        if exists|i: int| 0 <= i < edges.len() && (#[trigger] edges[i]).row.id.0 == id {
            let i = choose|i: int| 0 <= i < edges.len() && (#[trigger] edges[i]).row.id.0 == id;
            if i < shorter.len() {
                assert(shorter[i] == edges[i]);
            }
        }
    }
}

pub proof fn lemma_row_has(
    nodes: Seq<ScannedNodeView>,
    edges: Seq<ScannedEdgeView>,
    row: BindingView,
    alias: Seq<char>,
    property: Seq<char>,
    v: PropertyValueView,
)
    requires
        crate::query::matches::unique_nodes(nodes),
        agreement::unique_edges(edges),
    ensures
        row_has(nodes, edges, row, alias, property, v) <==> gives(
            row,
            alias,
            property,
            meaning::graph_records(nodes, edges),
            v,
        ),
{
    if row.nodes.dom().contains(alias) {
        let id = row.nodes[alias];
        crate::query::matches::lemma_record_is_row(nodes, id.0);
        if gives(row, alias, property, meaning::graph_records(nodes, edges), v) {
            let i = choose|i: int| 0 <= i < nodes.len() && (#[trigger] nodes[i]).row.id.0 == id.0;
            assert(nodes[i].row.id == id);
        }
    } else if row.edges.dom().contains(alias) {
        let id = row.edges[alias];
        lemma_edge_record_is_row(edges, id.0);
        if gives(row, alias, property, meaning::graph_records(nodes, edges), v) {
            let i = choose|i: int| 0 <= i < edges.len() && (#[trigger] edges[i]).row.id.0 == id.0;
            assert(edges[i].row.id == id);
        }
    }
}

proof fn lemma_row_compares(
    nodes: Seq<ScannedNodeView>,
    edges: Seq<ScannedEdgeView>,
    row: BindingView,
    alias: Seq<char>,
    f: PropertyFilterView,
)
    requires
        crate::query::matches::unique_nodes(nodes),
        agreement::unique_edges(edges),
    ensures
        row_compares(nodes, edges, row, alias, f) <==> hydration::meets_condition(
            row,
            (alias, f),
            meaning::graph_records(nodes, edges),
        ),
{
    let records = meaning::graph_records(nodes, edges);
    comparing::law_rows_meet_what_their_values_compare_with(row, alias, f, records);
    if row_compares(nodes, edges, row, alias, f) {
        let v = choose|v: PropertyValueView| #[trigger]
            row_has(nodes, edges, row, alias, f.property, v) && compare(f.op, v, written(f.value));
        lemma_row_has(nodes, edges, row, alias, f.property, v);
        assert(gives(row, alias, f.property, records, v));
    }
    if hydration::meets_condition(row, (alias, f), records) {
        let v = choose|v: PropertyValueView| #[trigger]
            gives(row, alias, f.property, records, v) && compare(f.op, v, written(f.value));
        lemma_row_has(nodes, edges, row, alias, f.property, v);
        assert(row_has(nodes, edges, row, alias, f.property, v));
    }
}

proof fn lemma_one_leads(
    edges: Seq<ScannedEdgeView>,
    direction: Direction,
    edge_type: Option<Seq<char>>,
    from: NodeId,
    to: NodeId,
)
    ensures
        one_leads(edges, direction, edge_type, from, to) <==> meaning::joined(
            edges,
            direction,
            edge_type,
            from,
            to,
        ),
{
    if meaning::joined(edges, direction, edge_type, from, to) {
        let i = choose|i: int|
            0 <= i < edges.len() && meaning::leads_over(
                #[trigger] edges[i],
                direction,
                edge_type,
                from,
                to,
            );
        assert(leads(edges[i], direction, edge_type, from, to));
    }
    if one_leads(edges, direction, edge_type, from, to) {
        let i = choose|i: int|
            0 <= i < edges.len() && leads(#[trigger] edges[i], direction, edge_type, from, to);
        assert(meaning::leads_over(edges[i], direction, edge_type, from, to));
    }
}

proof fn lemma_walks(
    edges: Seq<ScannedEdgeView>,
    direction: Direction,
    edge_type: Option<Seq<char>>,
    stops: Seq<NodeId>,
)
    ensures
        walks(edges, direction, edge_type, stops) <==> meaning::trail(
            edges,
            direction,
            edge_type,
            stops,
        ),
{
    assert forall|k: int| 0 < k < stops.len() implies (one_leads(
        edges,
        direction,
        edge_type,
        stops[k - 1],
        #[trigger] stops[k],
    ) <==> meaning::joined(edges, direction, edge_type, stops[k - 1], stops[k])) by {
        lemma_one_leads(edges, direction, edge_type, stops[k - 1], stops[k]);
    }
}

proof fn lemma_is_drawn(
    edges: Seq<ScannedEdgeView>,
    row: BindingView,
    from: NodePatternView,
    e: EdgePatternView,
    to: NodePatternView,
)
    ensures
        is_drawn(edges, row, from, e, to) <==> crate::query::matches::are_joined(
            edges,
            from.alias,
            e,
            to.alias,
            row,
        ),
{
    let (a, b) = (row.nodes[from.alias], row.nodes[to.alias]);
    if e.alias is None {
        if reaches(edges, e.direction, e.edge_type, e.hops, a, b) {
            let stops = choose|stops: Seq<NodeId>| #[trigger]
                walks(edges, e.direction, e.edge_type, stops) && stops.len() > 1 && e.hops.min + 1
                    <= stops.len() <= e.hops.max + 1 && stops[0] == a && stops[stops.len() - 1]
                    == b;
            lemma_walks(edges, e.direction, e.edge_type, stops);
            assert(meaning::trail(edges, e.direction, e.edge_type, stops));
        }
        if meaning::within_reach(edges, e.direction, e.edge_type, e.hops, a, b) {
            let stops = choose|path: Seq<NodeId>| #[trigger]
                meaning::trail(edges, e.direction, e.edge_type, path) && 2 <= path.len()
                    && e.hops.min <= path.len() - 1 <= e.hops.max && path[0] == a && path.last()
                    == b;
            lemma_walks(edges, e.direction, e.edge_type, stops);
            assert(walks(edges, e.direction, e.edge_type, stops));
        }
    }
}

/// Comparing a value of an edge with one of the row, the operator flipped, is
/// comparing the one of the row with the one of the edge.
proof fn lemma_compare_with_edge(op: ComparisonOp, v: PropertyValueView, w: PropertyValueView)
    ensures
        compare_with_edge(op, v, w) <==> compare(filter_eval::flipped(op), w, v),
{
    if !(w is Timestamp && v is String) && !(v is Timestamp && w is String) {
        comparing::law_flipping_compares_the_same(op, w, v);
    }
}

proof fn lemma_refers(
    nodes: Seq<ScannedNodeView>,
    edges: Seq<ScannedEdgeView>,
    row: BindingView,
    r: PropertyRefView,
    e: ScannedEdgeView,
    property: Seq<char>,
    op: ComparisonOp,
)
    requires
        crate::query::matches::unique_nodes(nodes),
        agreement::unique_edges(edges),
    ensures
        crate::query::matches::compares(
            e.row.properties,
            property,
            op,
            hydration::referred(row, r, meaning::graph_records(nodes, edges)),
        ) <==> e.row.properties.dom().contains(property) && exists|v: PropertyValueView| #[trigger]
            row_has(nodes, edges, row, r.alias, r.property, v) && compare(
                op,
                e.row.properties[property],
                v,
            ),
{
    let records = meaning::graph_records(nodes, edges);
    if e.row.properties.dom().contains(property) {
        let w = e.row.properties[property];
        comparing::law_correlated_values_compare(row, r.alias, r.property, records, op, w);
        assert(r == PropertyRefView { alias: r.alias, property: r.property });
        if exists|v: PropertyValueView| #[trigger]
            row_has(nodes, edges, row, r.alias, r.property, v) && compare(op, w, v) {
            let v = choose|v: PropertyValueView| #[trigger]
                row_has(nodes, edges, row, r.alias, r.property, v) && compare(op, w, v);
            lemma_row_has(nodes, edges, row, r.alias, r.property, v);
            assert(gives(row, r.alias, r.property, records, v));
        }
        if exists|v: PropertyValueView| #[trigger]
            gives(row, r.alias, r.property, records, v) && compare(op, w, v) {
            let v = choose|v: PropertyValueView| #[trigger]
                gives(row, r.alias, r.property, records, v) && compare(op, w, v);
            lemma_row_has(nodes, edges, row, r.alias, r.property, v);
            assert(row_has(nodes, edges, row, r.alias, r.property, v));
        }
    }
}

proof fn lemma_edge_satisfies(
    nodes: Seq<ScannedNodeView>,
    edges: Seq<ScannedEdgeView>,
    row: BindingView,
    e: ScannedEdgeView,
    inner: Option<Seq<char>>,
    c: WhereConditionView,
)
    requires
        crate::query::matches::unique_nodes(nodes),
        agreement::unique_edges(edges),
    ensures
        edge_satisfies(nodes, edges, row, e, inner, c) <==> crate::query::matches::edge_meets(
            c,
            inner,
            e,
            row,
            meaning::graph_records(nodes, edges),
        ),
{
    match c {
        WhereConditionView::Property(alias, f) => {
            comparing::law_filters_compare_the_property(e.row.properties, f);
        },
        WhereConditionView::PropertyComparison { left, op, right } => {
            if inner == Some(left.alias) {
                lemma_refers(nodes, edges, row, right, e, left.property, op);
            } else if inner == Some(right.alias) {
                let w = e.row.properties[right.property];
                lemma_refers(
                    nodes,
                    edges,
                    row,
                    left,
                    e,
                    right.property,
                    filter_eval::flipped(op),
                );
                assert forall|v: PropertyValueView|
                    compare_with_edge(op, v, w) <==> #[trigger] compare(
                        filter_eval::flipped(op),
                        w,
                        v,
                    ) by {
                    lemma_compare_with_edge(op, v, w);
                }
            }
        },
        _ => {},
    }
}

proof fn lemma_satisfies(
    nodes: Seq<ScannedNodeView>,
    edges: Seq<ScannedEdgeView>,
    row: BindingView,
    c: WhereConditionView,
)
    requires
        crate::query::matches::unique_nodes(nodes),
        agreement::unique_edges(edges),
    ensures
        satisfies(nodes, edges, row, c) <==> crate::query::matches::condition_holds(
            edges,
            c,
            row,
            meaning::graph_records(nodes, edges),
        ),
{
    let records = meaning::graph_records(nodes, edges);
    match c {
        WhereConditionView::Property(alias, f) => {
            lemma_row_compares(nodes, edges, row, alias, f);
        },
        WhereConditionView::NotExists(sub) => {
            assert forall|i: int| 0 <= i < edges.len() implies (is_ruled_out(
                nodes,
                edges,
                row,
                sub,
                #[trigger] edges[i],
            ) <==> crate::query::matches::is_spoken_of(sub, edges[i], row, records)) by {
                let drawn = sub.pattern.steps[1]->Edge_0;
                assert forall|j: int| 0 <= j < sub.where_conditions.len() implies (edge_satisfies(
                    nodes,
                    edges,
                    row,
                    edges[i],
                    drawn.alias,
                    #[trigger] sub.where_conditions[j],
                ) <==> crate::query::matches::edge_meets(
                    sub.where_conditions[j],
                    drawn.alias,
                    edges[i],
                    row,
                    records,
                )) by {
                    lemma_edge_satisfies(
                        nodes,
                        edges,
                        row,
                        edges[i],
                        drawn.alias,
                        sub.where_conditions[j],
                    );
                }
            }
        },
        _ => {},
    }
}

/// The matches of a query are the rows that answer it.
pub proof fn law_matches_are_answers(
    q: QueryView,
    nodes: Seq<ScannedNodeView>,
    edges: Seq<ScannedEdgeView>,
    row: BindingView,
)
    requires
        crate::query::matches::unique_nodes(nodes),
        agreement::unique_edges(edges),
    ensures
        crate::query::matches::is_match(q, nodes, edges, row) <==> is_answer(q, nodes, edges, row),
{
    let steps = q.pattern.steps;
    let records = meaning::graph_records(nodes, edges);
    let first = steps[0]->Node_0;
    assert forall|a: Seq<char>|
        #![trigger row.nodes.dom().contains(a)]
        validator::binds_node(steps, a) <==> exists|k: int|
            0 <= k < steps.len() && (#[trigger] steps[k]) is Node && (steps[k]->Node_0).alias
                == a by {
        if exists|k: int|
            0 <= k < steps.len() && (#[trigger] steps[k]) is Node && (steps[k]->Node_0).alias
                == a {
            let k = choose|k: int|
                0 <= k < steps.len() && (#[trigger] steps[k]) is Node && (steps[k]->Node_0).alias
                    == a;
            assert(steps[k] matches PatternStepView::Node(n) && n.alias == a);
        }
    }
    assert forall|a: Seq<char>|
        #![trigger row.edges.dom().contains(a)]
        validator::binds_edge(steps, a) <==> exists|k: int|
            0 <= k < steps.len() && (#[trigger] steps[k]) is Edge && (steps[k]->Edge_0).alias
                == Some(a) by {
        if exists|k: int|
            0 <= k < steps.len() && (#[trigger] steps[k]) is Edge && (steps[k]->Edge_0).alias
                == Some(a) {
            let k = choose|k: int|
                0 <= k < steps.len() && (#[trigger] steps[k]) is Edge && (steps[k]->Edge_0).alias
                    == Some(a);
            assert(steps[k] matches PatternStepView::Edge(e) && e.alias == Some(a));
        }
    }
    assert((exists|i: int|
        0 <= i < nodes.len() && (#[trigger] nodes[i]).row.id == row.nodes[first.alias] && Some(
            nodes[i].label,
        ) == first.label) <==> crate::query::matches::has_label(first, row, records)) by {
        let id = row.nodes[first.alias];
        crate::query::matches::lemma_record_is_row(nodes, id.0);
        if crate::query::matches::has_label(first, row, records) {
            let i = choose|i: int| 0 <= i < nodes.len() && (#[trigger] nodes[i]).row.id.0 == id.0;
            assert(nodes[i].row.id == id);
        }
    }
    assert forall|k: int, j: int|
        0 <= k < steps.len() && steps[k] is Node && 0 <= j
            < (steps[k]->Node_0).property_filters.len() implies (row_compares(
        nodes,
        edges,
        row,
        (steps[k]->Node_0).alias,
        #[trigger] (steps[k]->Node_0).property_filters[j],
    ) <==> hydration::meets_condition(
        row,
        ((steps[k]->Node_0).alias, (steps[k]->Node_0).property_filters[j]),
        records,
    )) by {
        lemma_row_compares(
            nodes,
            edges,
            row,
            (steps[k]->Node_0).alias,
            (steps[k]->Node_0).property_filters[j],
        );
    }
    assert forall|k: int| 0 <= k < steps.len() && (#[trigger] steps[k]) is Edge implies (is_drawn(
        edges,
        row,
        steps[k - 1]->Node_0,
        steps[k]->Edge_0,
        steps[k + 1]->Node_0,
    ) <==> crate::query::matches::step_joins(edges, steps, k, row)) by {
        lemma_is_drawn(
            edges,
            row,
            steps[k - 1]->Node_0,
            steps[k]->Edge_0,
            steps[k + 1]->Node_0,
        );
    }
    assert forall|i: int| 0 <= i < q.where_conditions.len() implies (satisfies(
        nodes,
        edges,
        row,
        #[trigger] q.where_conditions[i],
    ) <==> crate::query::matches::condition_holds(edges, q.where_conditions[i], row, records)) by {
        lemma_satisfies(nodes, edges, row, q.where_conditions[i]);
    }
}

/// A cluster answers a valid query with the rows that answer it in the graph,
/// and with no others: an edge with an equal property between the ends of a row
/// takes the row away where a `NOT EXISTS` asks for equality, a walk of a length
/// outside the range gives no row, and so on, whatever was asked and answered on
/// the way.
pub proof fn law_a_cluster_answers_with_the_answers<R: PartitionRpc>(
    rpc: R,
    map: PartitionMap,
    g: IndexGeneration,
    gs: Seq<IndexGeneration>,
    s: SchemaView,
    nodes: Seq<ScannedNodeView>,
    edges: Seq<ScannedEdgeView>,
    q: QueryView,
    run: PlanRun,
    row: BindingView,
)
    requires
        agreement::holds_all(g, s, nodes, edges),
        agreement::divides(gs, s, nodes, edges),
        agreement::no_dangling(nodes, edges),
        agreement::unique_edges(edges),
        crate::query::matches::unique_nodes(nodes),
        whole_plan::all_serve(rpc, map, gs),
        planner::plannable(q),
        validator::query_errors(q, s).len() == 0,
        whole_plan::well_named(q),
        crate::query::matches::start_is_indexed(q, s),
        distributed::asked_plan(rpc, map, gs.len() as u32, planner::plan_of(q), run),
    ensures
        distributed::plan_outcome(map, gs.len() as u32, planner::plan_of(q), run) is Ok,
        (distributed::plan_outcome(
            map,
            gs.len() as u32,
            planner::plan_of(q),
            run,
        )->Ok_0).contains(row) <==> is_answer(q, nodes, edges, row),
{
    crate::query::matches::law_a_cluster_gives_the_matches_of_the_query(
        rpc,
        map,
        g,
        gs,
        s,
        nodes,
        edges,
        q,
        run,
        row,
    );
    law_matches_are_answers(q, nodes, edges, row);
}

} // verus!
