//! What a query means: which rows are its matches in a graph.
//!
//! A match binds every name of the pattern so that the nodes and the edges of
//! the graph are as the pattern and the conditions say. No plan, no index and
//! no partition is part of that.
//!
//! The label of a later node does not restrict a match, nor do comparisons of
//! aliases with each other, or of two properties outside a `NOT EXISTS`.
use crate::cluster::PartitionMap;
use crate::dsl;
use crate::dsl::validator;
use crate::dsl::validator::ScopeView;
use crate::dsl::{
    ComparisonOp, EdgePatternView, ExistsSubqueryView, LiteralView, NodePatternView,
    PatternStepView, PropertyFilterView, QueryView, WhereConditionView,
};
use crate::index::builder;
use crate::index::builder::{Posting, ScannedEdgeView, ScannedNodeView};
use crate::index::{IndexGeneration, NodeRecordView};
use crate::query::agreement;
use crate::query::distributed;
use crate::query::distributed::{PartitionRpc, PlanRun};
use crate::query::filter_eval;
use crate::query::hydration;
use crate::query::hydration::RecordsView;
use crate::query::lookup;
use crate::query::meaning;
use crate::query::planner;
use crate::query::pushdown;
use crate::query::whole_plan;
use crate::query::{BindingView, PlanStepView};
use crate::schema::SchemaView;
use crate::storage::PropertyValueView;
use vstd::prelude::*;

verus! {

/// That a row binds the names of a pattern, and no others.
pub open spec fn binds_names(steps: Seq<PatternStepView>, row: BindingView) -> bool {
    &&& forall|a: Seq<char>| #[trigger]
        row.nodes.dom().contains(a) <==> validator::binds_node(steps, a)
    &&& forall|a: Seq<char>| #[trigger]
        row.edges.dom().contains(a) <==> validator::binds_edge(steps, a)
}

/// Whether the node that a row binds has the properties of a node of the
/// pattern.
pub open spec fn has_properties(n: NodePatternView, row: BindingView, records: RecordsView) -> bool {
    forall|i: int|
        0 <= i < n.property_filters.len() ==> hydration::meets_condition(
            row,
            (n.alias, #[trigger] n.property_filters[i]),
            records,
        )
}

/// Whether the node that a row binds has the label of a node of the pattern.
pub open spec fn has_label(n: NodePatternView, row: BindingView, records: RecordsView) -> bool {
    records.nodes.dom().contains(row.nodes[n.alias].0) && Some(
        records.nodes[row.nodes[n.alias].0].label,
    ) == n.label
}

/// Whether two nodes that a row binds are joined as an edge of the pattern
/// says: by the edge that the row binds where the pattern names it, by a path
/// of the graph otherwise.
pub open spec fn are_joined(
    edges: Seq<ScannedEdgeView>,
    from: Seq<char>,
    e: EdgePatternView,
    to: Seq<char>,
    row: BindingView,
) -> bool {
    match e.alias {
        Some(alias) => exists|i: int|
            0 <= i < edges.len() && meaning::leads_over(
                #[trigger] edges[i],
                e.direction,
                e.edge_type,
                row.nodes[from],
                row.nodes[to],
            ) && edges[i].row.id == row.edges[alias],
        None => meaning::within_reach(
            edges,
            e.direction,
            e.edge_type,
            e.hops,
            row.nodes[from],
            row.nodes[to],
        ),
    }
}

/// Whether the nodes on both sides of an edge of a pattern are joined as it
/// says.
pub open spec fn step_joins(
    edges: Seq<ScannedEdgeView>,
    steps: Seq<PatternStepView>,
    k: int,
    row: BindingView,
) -> bool {
    are_joined(
        edges,
        (steps[k - 1]->Node_0).alias,
        steps[k]->Edge_0,
        (steps[k + 1]->Node_0).alias,
        row,
    )
}

/// Whether a property of an edge compares with a value, if there is one.
pub open spec fn compares(
    properties: Map<Seq<char>, PropertyValueView>,
    property: Seq<char>,
    op: ComparisonOp,
    value: Option<LiteralView>,
) -> bool {
    match value {
        Some(value) => filter_eval::passes(properties, PropertyFilterView { property, op, value }),
        None => false,
    }
}

/// Whether an edge meets a condition of a `NOT EXISTS` whose edge has the alias
/// `inner`. One that does not speak of that edge puts no restriction on it.
pub open spec fn edge_meets(
    c: WhereConditionView,
    inner: Option<Seq<char>>,
    e: ScannedEdgeView,
    row: BindingView,
    records: RecordsView,
) -> bool {
    match c {
        WhereConditionView::Property(alias, filter) => inner == Some(alias)
            ==> filter_eval::passes(e.row.properties, filter),
        WhereConditionView::PropertyComparison { left, op, right } => if inner == Some(left.alias) {
            compares(
                e.row.properties,
                left.property,
                op,
                hydration::referred(row, right, records),
            )
        } else if inner == Some(right.alias) {
            compares(
                e.row.properties,
                right.property,
                filter_eval::flipped(op),
                hydration::referred(row, left, records),
            )
        } else {
            true
        },
        _ => true,
    }
}

/// Whether an edge is one that a `NOT EXISTS` speaks of.
pub open spec fn is_spoken_of(
    sub: ExistsSubqueryView,
    e: ScannedEdgeView,
    row: BindingView,
    records: RecordsView,
) -> bool {
    let edge = sub.pattern.steps[1]->Edge_0;
    &&& meaning::leads_over(
        e,
        edge.direction,
        edge.edge_type,
        row.nodes[(sub.pattern.steps[0]->Node_0).alias],
        row.nodes[(sub.pattern.steps[2]->Node_0).alias],
    )
    &&& forall|j: int|
        0 <= j < sub.where_conditions.len() ==> edge_meets(
            #[trigger] sub.where_conditions[j],
            edge.alias,
            e,
            row,
            records,
        )
}

/// Whether a condition of a query holds of a row.
pub open spec fn condition_holds(
    edges: Seq<ScannedEdgeView>,
    c: WhereConditionView,
    row: BindingView,
    records: RecordsView,
) -> bool {
    match c {
        WhereConditionView::Property(alias, filter) => hydration::meets_condition(
            row,
            (alias, filter),
            records,
        ),
        WhereConditionView::NotExists(sub) => !exists|i: int|
            0 <= i < edges.len() && is_spoken_of(sub, #[trigger] edges[i], row, records),
        _ => true,
    }
}

/// Whether a row is a match of a query in a graph.
pub open spec fn is_match(
    q: QueryView,
    nodes: Seq<ScannedNodeView>,
    edges: Seq<ScannedEdgeView>,
    row: BindingView,
) -> bool {
    let steps = q.pattern.steps;
    let records = meaning::graph_records(nodes, edges);
    &&& binds_names(steps, row)
    &&& has_label(steps[0]->Node_0, row, records)
    &&& forall|k: int|
        0 <= k < steps.len() && (#[trigger] steps[k]) is Node ==> has_properties(
            steps[k]->Node_0,
            row,
            records,
        )
    &&& forall|k: int|
        0 <= k < steps.len() && steps[k] is Edge ==> #[trigger] step_joins(edges, steps, k, row)
    &&& forall|i: int|
        0 <= i < q.where_conditions.len() ==> condition_holds(
            edges,
            #[trigger] q.where_conditions[i],
            row,
            records,
        )
}

/// That no two nodes of a graph have the same id.
pub open spec fn unique_nodes(nodes: Seq<ScannedNodeView>) -> bool {
    forall|i: int, j: int|
        0 <= i < j < nodes.len() ==> (#[trigger] nodes[i]).row.id != (#[trigger] nodes[j]).row.id
}

/// That the property by which a query finds its start is indexed.
pub open spec fn start_is_indexed(q: QueryView, s: SchemaView) -> bool {
    let start = q.pattern.steps[0]->Node_0;
    start.property_filters.len() > 0 ==> pushdown::is_indexed(
        s,
        start.label->Some_0,
        start.property_filters[0].property,
    )
}

/// Where ids are unique the record of a node is its row.
pub proof fn lemma_record_is_row(nodes: Seq<ScannedNodeView>, id: u64)
    requires
        unique_nodes(nodes),
    ensures
        builder::node_record_map(nodes).dom().contains(id) <==> exists|i: int|
            0 <= i < nodes.len() && (#[trigger] nodes[i]).row.id.0 == id,
        forall|i: int|
            0 <= i < nodes.len() && (#[trigger] nodes[i]).row.id.0 == id
                ==> builder::node_record_map(nodes)[id] == (NodeRecordView {
                label: nodes[i].label,
                properties: nodes[i].row.properties,
            }),
    decreases nodes.len(),
{
    if nodes.len() > 0 {
        let shorter = nodes.drop_last();
        assert forall|i: int, j: int| 0 <= i < j < shorter.len() implies (
        #[trigger] shorter[i]).row.id != (#[trigger] shorter[j]).row.id by {
            assert(nodes[i].row.id != nodes[j].row.id);
        }
        lemma_record_is_row(shorter, id);
        assert(nodes[nodes.len() - 1] == nodes.last());
        if exists|i: int| 0 <= i < shorter.len() && (#[trigger] shorter[i]).row.id.0 == id {
            let i = choose|i: int| 0 <= i < shorter.len() && (#[trigger] shorter[i]).row.id.0 == id;
            assert(nodes[i] == shorter[i]);
        }
        assert forall|i: int| 0 <= i < nodes.len() && (#[trigger] nodes[i]).row.id.0 == id implies
            builder::node_record_map(nodes)[id] == (NodeRecordView {
            label: nodes[i].label,
            properties: nodes[i].row.properties,
        }) by {
            if i < shorter.len() {
                assert(shorter[i] == nodes[i]);
                assert(nodes[i].row.id != nodes[nodes.len() - 1].row.id);
            }
        }
        if exists|i: int| 0 <= i < nodes.len() && (#[trigger] nodes[i]).row.id.0 == id {
            let i = choose|i: int| 0 <= i < nodes.len() && (#[trigger] nodes[i]).row.id.0 == id;
            if i < shorter.len() {
                assert(shorter[i] == nodes[i]);
            }
        }
    }
}

/// A value is found by the key of a literal, or by the instant that it names,
/// exactly where it is equal to the literal.
proof fn lemma_found_is_equal(v: PropertyValueView, l: LiteralView)
    requires
        planner::keyable(l),
    ensures
        ({
            let key = planner::literal_key(l);
            builder::key_of(v) == Some(key) || (lookup::instant_key(
                key,
                lookup::key_instant(key),
            ) matches Some(k) && builder::key_of(v) == Some(k))
        }) <==> filter_eval::meets(v, ComparisonOp::Eq, l, filter_eval::literal_instant(l)),
{
    if let (PropertyValueView::String(a), LiteralView::String(b)) = (v, l) {
        crate::text::lemma_lex_total(a, b);
        crate::text::lemma_lex_irreflexive(a);
    }
}

/// The start of a plan holds of a row exactly where its node has the label and
/// the property of the start of the pattern.
proof fn lemma_start_is_start(
    q: QueryView,
    s: SchemaView,
    nodes: Seq<ScannedNodeView>,
    edges: Seq<ScannedEdgeView>,
    row: BindingView,
)
    requires
        planner::plannable(q),
        unique_nodes(nodes),
        start_is_indexed(q, s),
        row.nodes.dom().contains((q.pattern.steps[0]->Node_0).alias),
    ensures
        meaning::step_holds(s, nodes, edges, planner::plan_of(q).steps[0], row) <==> has_label(
            q.pattern.steps[0]->Node_0,
            row,
            meaning::graph_records(nodes, edges),
        ) && has_properties(
            q.pattern.steps[0]->Node_0,
            row,
            meaning::graph_records(nodes, edges),
        ),
{
    let n = q.pattern.steps[0]->Node_0;
    let records = meaning::graph_records(nodes, edges);
    let id = row.nodes[n.alias];
    planner::lemma_plan_steps(q, 0);
    lemma_record_is_row(nodes, id.0);
    if n.property_filters.len() > 0 {
        let f = n.property_filters[0];
        let label = n.label->Some_0;
        let key = planner::literal_key(f.value);
        let other = lookup::instant_key(key, lookup::key_instant(key));
        pushdown::law_postings_are_the_indexed_values(
            nodes,
            s,
            Posting { label, property: f.property, key, id },
        );
        if let Some(k) = other {
            pushdown::law_postings_are_the_indexed_values(
                nodes,
                s,
                Posting { label, property: f.property, key: k, id },
            );
        }
        if meaning::has_value(s, nodes, label, f.property, key, id) {
            let i = choose|i: int|
                0 <= i < nodes.len() && (#[trigger] nodes[i]).label == label && nodes[i].row.id
                    == id && nodes[i].row.properties.dom().contains(f.property) && (
                builder::key_of(nodes[i].row.properties[f.property]) == Some(key) || (
                other matches Some(k) && builder::key_of(nodes[i].row.properties[f.property])
                    == Some(k)));
            lemma_found_is_equal(nodes[i].row.properties[f.property], f.value);
            assert(hydration::meets_condition(row, (n.alias, f), records));
        }
        if has_label(n, row, records) && has_properties(n, row, records) {
            assert(hydration::meets_condition(row, (n.alias, n.property_filters[0]), records));
            let i = choose|i: int| 0 <= i < nodes.len() && (#[trigger] nodes[i]).row.id.0 == id.0;
            lemma_found_is_equal(nodes[i].row.properties[f.property], f.value);
            assert(nodes[i].row.id == id);
        }
    }
}

/// The names that a plan binds to edges are those of its pattern.
proof fn lemma_bound_edges(q: QueryView, s: SchemaView, k: nat, alias: Seq<char>)
    requires
        planner::plannable(q),
        validator::query_errors(q, s).len() == 0,
        k < planner::plan_of(q).steps.len(),
    ensures
        k <= whole_plan::edge_count(q) ==> (meaning::bound_edges(
            planner::plan_of(q).steps,
            k,
        ).contains(alias) <==> exists|i: int|
            1 <= i <= k && ((#[trigger] q.pattern.steps[2 * i - 1])->Edge_0).alias == Some(alias)),
        k > whole_plan::edge_count(q) ==> (meaning::bound_edges(
            planner::plan_of(q).steps,
            k,
        ).contains(alias) <==> meaning::bound_edges(
            planner::plan_of(q).steps,
            whole_plan::edge_count(q),
        ).contains(alias)),
    decreases k,
{
    let steps = planner::plan_of(q).steps;
    let pattern = q.pattern.steps;
    planner::law_plans_walk_in_a_chain(q, k as int);
    planner::lemma_plan_steps(q, k as int);
    if k > 0 {
        let m = (k - 1) as nat;
        lemma_bound_edges(q, s, m, alias);
        if k <= whole_plan::edge_count(q) {
            let e = pattern[2 * k - 1]->Edge_0;
            assert(pattern[2 * k - 1] is Edge);
            dsl::laws::law_valid_patterns_follow_the_schema(q, s, 2 * k - 1);
            if exists|i: int|
                1 <= i <= m && ((#[trigger] pattern[2 * i - 1])->Edge_0).alias == Some(alias) {
                let i = choose|i: int|
                    1 <= i <= m && ((#[trigger] pattern[2 * i - 1])->Edge_0).alias == Some(alias);
                assert(1 <= i <= k && (pattern[2 * i - 1]->Edge_0).alias == Some(alias));
            }
            if exists|i: int|
                1 <= i <= k && ((#[trigger] pattern[2 * i - 1])->Edge_0).alias == Some(alias) {
                let i = choose|i: int|
                    1 <= i <= k && ((#[trigger] pattern[2 * i - 1])->Edge_0).alias == Some(alias);
                if i <= m {
                    assert(1 <= i <= m && (pattern[2 * i - 1]->Edge_0).alias == Some(alias));
                }
            }
            if e.alias == Some(alias) {
                assert((pattern[2 * k - 1]->Edge_0).alias == Some(alias));
            }
        }
    }
}

/// A plan binds the names of its pattern.
proof fn lemma_names(q: QueryView, s: SchemaView, row: BindingView)
    requires
        planner::plannable(q),
        validator::query_errors(q, s).len() == 0,
    ensures
        ({
            let steps = planner::plan_of(q).steps;
            let last = (steps.len() - 1) as nat;
            row.nodes.dom() == whole_plan::bound(steps, last) && row.edges.dom()
                == meaning::bound_edges(steps, last)
        }) <==> binds_names(q.pattern.steps, row),
{
    let steps = planner::plan_of(q).steps;
    let pattern = q.pattern.steps;
    let count = whole_plan::edge_count(q);
    planner::lemma_plan_steps(q, 0);
    let last = (steps.len() - 1) as nat;
    assert forall|a: Seq<char>| #[trigger] whole_plan::bound(steps, last).contains(a)
        <==> validator::binds_node(pattern, a) by {
        whole_plan::lemma_bound_by_pattern(q, last, a);
        whole_plan::lemma_bound_by_pattern(q, count, a);
        if validator::binds_node(pattern, a) {
            let j = choose|j: int|
                0 <= j < pattern.len() && (#[trigger] pattern[j] matches PatternStepView::Node(n)
                    && n.alias == a);
            assert(j % 2 == 0);
            assert(2 * (j / 2) == j);
            assert((pattern[2 * (j / 2)]->Node_0).alias == a);
        }
        if exists|i: int| 0 <= i <= count && ((#[trigger] pattern[2 * i])->Node_0).alias == a {
            let i = choose|i: int|
                0 <= i <= count && ((#[trigger] pattern[2 * i])->Node_0).alias == a;
            assert(pattern[2 * i] is Node);
        }
    }
    assert forall|a: Seq<char>| #[trigger] meaning::bound_edges(steps, last).contains(a)
        <==> validator::binds_edge(pattern, a) by {
        lemma_bound_edges(q, s, last, a);
        lemma_bound_edges(q, s, count, a);
        if validator::binds_edge(pattern, a) {
            let j = choose|j: int|
                0 <= j < pattern.len() && (#[trigger] pattern[j] matches PatternStepView::Edge(e)
                    && e.alias == Some(a));
            assert(j % 2 == 1);
            let i = (j + 1) / 2;
            assert(2 * i - 1 == j);
            assert((pattern[2 * i - 1]->Edge_0).alias == Some(a));
        }
        if exists|i: int|
            1 <= i <= count && ((#[trigger] pattern[2 * i - 1])->Edge_0).alias == Some(a) {
            let i = choose|i: int|
                1 <= i <= count && ((#[trigger] pattern[2 * i - 1])->Edge_0).alias == Some(a);
            assert(pattern[2 * i - 1] is Edge);
        }
    }
    if binds_names(pattern, row) {
        assert forall|a: Seq<char>| row.nodes.dom().contains(a) == whole_plan::bound(
            steps,
            last,
        ).contains(a) by {
            assert(row.nodes.dom().contains(a) <==> validator::binds_node(pattern, a));
        }
        assert(row.nodes.dom() =~= whole_plan::bound(steps, last));
        assert forall|a: Seq<char>| row.edges.dom().contains(a) == meaning::bound_edges(
            steps,
            last,
        ).contains(a) by {
            assert(row.edges.dom().contains(a) <==> validator::binds_edge(pattern, a));
        }
        assert(row.edges.dom() =~= meaning::bound_edges(steps, last));
    }
}

/// The literal conditions of a `NOT EXISTS` are those on its edge.
proof fn lemma_literal_conditions(
    conditions: Seq<WhereConditionView>,
    inner: Option<Seq<char>>,
    properties: Map<Seq<char>, PropertyValueView>,
)
    ensures
        filter_eval::passes_all(properties, planner::literal_conditions(conditions, inner))
            <==> forall|j: int|
            0 <= j < conditions.len() ==> ((
            #[trigger] conditions[j]) matches WhereConditionView::Property(a, f) ==> (inner == Some(
                a,
            ) ==> filter_eval::passes(properties, f))),
    decreases conditions.len(),
{
    if conditions.len() > 0 {
        let shorter = conditions.drop_last();
        lemma_literal_conditions(shorter, inner, properties);
        let rest = planner::literal_conditions(shorter, inner);
        let all = planner::literal_conditions(conditions, inner);
        assert(conditions[conditions.len() - 1] == conditions.last());
        let holds = |cs: Seq<WhereConditionView>|
            forall|j: int|
                0 <= j < cs.len() ==> ((
                #[trigger] cs[j]) matches WhereConditionView::Property(a, f) ==> (inner == Some(a)
                    ==> filter_eval::passes(properties, f)));
        if holds(conditions) {
            assert forall|j: int| 0 <= j < shorter.len() implies ((
            #[trigger] shorter[j]) matches WhereConditionView::Property(a, f) ==> (inner == Some(a)
                ==> filter_eval::passes(properties, f))) by {
                assert(conditions[j] == shorter[j]);
            }
        }
        if holds(shorter) {
            assert forall|j: int| 0 <= j < shorter.len() implies ((
            #[trigger] conditions[j]) matches WhereConditionView::Property(a, f) ==> (inner == Some(
                a,
            ) ==> filter_eval::passes(properties, f))) by {
                assert(conditions[j] == shorter[j]);
            }
        }
        if filter_eval::passes_all(properties, all) {
            assert forall|j: int| 0 <= j < rest.len() implies filter_eval::passes(
                properties,
                #[trigger] rest[j],
            ) by {
                assert(all[j] == rest[j]);
            }
            if let WhereConditionView::Property(a, f) = conditions.last() {
                if inner == Some(a) {
                    assert(all[rest.len() as int] == f);
                }
            }
        }
    }
}

/// The outer conditions of a `NOT EXISTS` hold of an edge exactly where its
/// properties compare with those of the row.
proof fn lemma_outer_conditions(
    conditions: Seq<WhereConditionView>,
    inner: Option<Seq<char>>,
    e: ScannedEdgeView,
    row: BindingView,
    records: RecordsView,
)
    ensures
        (hydration::resolved_outer(
            row,
            planner::outer_conditions(conditions, inner),
            records,
        ) matches Some(outer) && filter_eval::passes_all(e.row.properties, outer)) <==> forall|
            j: int,
        |
            0 <= j < conditions.len() && (#[trigger] conditions[j]) is PropertyComparison
                ==> edge_meets(conditions[j], inner, e, row, records),
    decreases conditions.len(),
{
    if conditions.len() > 0 {
        let shorter = conditions.drop_last();
        lemma_outer_conditions(shorter, inner, e, row, records);
        let last = conditions.last();
        assert(conditions[conditions.len() - 1] == last);
        let rest = planner::outer_conditions(shorter, inner);
        let all = planner::outer_conditions(conditions, inner);
        let before = hydration::resolved_outer(row, rest, records);
        let now = hydration::resolved_outer(row, all, records);
        let holds = |cs: Seq<WhereConditionView>|
            forall|j: int|
                0 <= j < cs.len() && (#[trigger] cs[j]) is PropertyComparison ==> edge_meets(
                    cs[j],
                    inner,
                    e,
                    row,
                    records,
                );
        if holds(conditions) {
            assert forall|j: int|
                0 <= j < shorter.len() && (#[trigger] shorter[j]) is PropertyComparison implies
                edge_meets(shorter[j], inner, e, row, records) by {
                assert(conditions[j] == shorter[j]);
            }
        }
        if holds(shorter) {
            assert forall|j: int|
                0 <= j < shorter.len() && (#[trigger] conditions[j]) is PropertyComparison implies
                edge_meets(conditions[j], inner, e, row, records) by {
                assert(conditions[j] == shorter[j]);
            }
        }
        if all.len() > rest.len() {
            assert(all.drop_last() =~= rest);
            let (property, op, reference) = all.last();
            let value = hydration::referred(row, reference, records);
            assert(edge_meets(last, inner, e, row, records) == compares(
                e.row.properties,
                property,
                op,
                value,
            ));
            if before is Some && value is Some {
                let f = PropertyFilterView { property, op, value: value->Some_0 };
                let old_filters = before->Some_0;
                let filters = now->Some_0;
                assert(filters == old_filters.push(f));
                assert(filter_eval::passes_all(e.row.properties, filters)
                    <==> filter_eval::passes_all(e.row.properties, old_filters)
                    && filter_eval::passes(e.row.properties, f)) by {
                    assert(filters[old_filters.len() as int] == f);
                    if filter_eval::passes_all(e.row.properties, filters) {
                        assert forall|j: int| 0 <= j < old_filters.len() implies
                            filter_eval::passes(e.row.properties, #[trigger] old_filters[j]) by {
                            assert(filters[j] == old_filters[j]);
                        }
                    }
                }
            }
        } else {
            assert(all == rest);
            assert(last is PropertyComparison ==> edge_meets(last, inner, e, row, records));
        }
    }
}

/// The check of a `NOT EXISTS` holds of a row exactly where no edge is one
/// that it speaks of.
proof fn lemma_check_is_not_exists(
    s: SchemaView,
    nodes: Seq<ScannedNodeView>,
    edges: Seq<ScannedEdgeView>,
    sub: ExistsSubqueryView,
    row: BindingView,
)
    ensures
        meaning::step_holds(
            s,
            nodes,
            edges,
            PlanStepView::AntiJoin(planner::anti_join_step(sub)),
            row,
        ) <==> condition_holds(
            edges,
            WhereConditionView::NotExists(sub),
            row,
            meaning::graph_records(nodes, edges),
        ),
{
    let anti = planner::anti_join_step(sub);
    let records = meaning::graph_records(nodes, edges);
    let resolved = hydration::resolved_conditions(row, anti, records);
    assert forall|i: int| 0 <= i < edges.len() implies (is_spoken_of(
        sub,
        #[trigger] edges[i],
        row,
        records,
    ) <==> (resolved matches Some(conditions) && agreement::edge_forbids(
        edges[i],
        anti,
        conditions,
        row,
    ))) by {
        lemma_spoken_of(sub, edges[i], row, records);
    }
    match resolved {
        Some(conditions) => {
            if agreement::scanned_forbids(edges, anti, conditions, row) {
                let i = choose|i: int|
                    0 <= i < edges.len() && agreement::edge_forbids(
                        #[trigger] edges[i],
                        anti,
                        conditions,
                        row,
                    );
                assert(is_spoken_of(sub, edges[i], row, records));
            }
            if exists|i: int|
                0 <= i < edges.len() && is_spoken_of(sub, #[trigger] edges[i], row, records) {
                let i = choose|i: int|
                    0 <= i < edges.len() && is_spoken_of(sub, #[trigger] edges[i], row, records);
                assert(agreement::edge_forbids(edges[i], anti, conditions, row));
            }
        },
        None => {},
    }
}

proof fn lemma_spoken_of(
    sub: ExistsSubqueryView,
    e: ScannedEdgeView,
    row: BindingView,
    records: RecordsView,
)
    ensures
        is_spoken_of(sub, e, row, records) <==> (hydration::resolved_conditions(
            row,
            planner::anti_join_step(sub),
            records,
        ) matches Some(conditions) && agreement::edge_forbids(
            e,
            planner::anti_join_step(sub),
            conditions,
            row,
        )),
{
    let anti = planner::anti_join_step(sub);
    let inner = anti.edge_alias;
    let cs = sub.where_conditions;
    let props = e.row.properties;
    lemma_literal_conditions(cs, inner, props);
    lemma_outer_conditions(cs, inner, e, row, records);
    let literal = forall|j: int|
        0 <= j < cs.len() ==> ((#[trigger] cs[j]) matches WhereConditionView::Property(a, f) ==> (
        inner == Some(a) ==> filter_eval::passes(props, f)));
    let outer = forall|j: int|
        0 <= j < cs.len() && (#[trigger] cs[j]) is PropertyComparison ==> edge_meets(
            cs[j],
            inner,
            e,
            row,
            records,
        );
    let every = forall|j: int|
        0 <= j < cs.len() ==> edge_meets(#[trigger] cs[j], inner, e, row, records);
    assert(every <==> literal && outer) by {
        if literal && outer {
            assert forall|j: int| 0 <= j < cs.len() implies edge_meets(
                #[trigger] cs[j],
                inner,
                e,
                row,
                records,
            ) by {}
        }
        if every {
            assert forall|j: int| 0 <= j < cs.len() implies ((
            #[trigger] cs[j]) matches WhereConditionView::Property(a, f) ==> (inner == Some(a)
                ==> filter_eval::passes(props, f))) by {
                assert(edge_meets(cs[j], inner, e, row, records));
            }
        }
    }
    if let Some(more) = hydration::resolved_outer(row, anti.outer_conditions, records) {
        let first = anti.literal_conditions;
        let all = first + more;
        assert(filter_eval::passes_all(props, all) <==> filter_eval::passes_all(props, first)
            && filter_eval::passes_all(props, more)) by {
            if filter_eval::passes_all(props, all) {
                assert forall|j: int| 0 <= j < first.len() implies filter_eval::passes(
                    props,
                    #[trigger] first[j],
                ) by {
                    assert(all[j] == first[j]);
                }
                assert forall|j: int| 0 <= j < more.len() implies filter_eval::passes(
                    props,
                    #[trigger] more[j],
                ) by {
                    assert(all[first.len() + j] == more[j]);
                }
            }
        }
    }
}

/// A hop of a plan holds of a row exactly where its nodes are joined as the
/// edge of the pattern says and meet the filters of the hop.
proof fn lemma_hop_is_edge(
    q: QueryView,
    s: SchemaView,
    nodes: Seq<ScannedNodeView>,
    edges: Seq<ScannedEdgeView>,
    row: BindingView,
    k: int,
)
    requires
        planner::plannable(q),
        validator::query_errors(q, s).len() == 0,
        1 <= k <= whole_plan::edge_count(q),
    ensures
        ({
            let steps = q.pattern.steps;
            let step = planner::plan_of(q).steps[k];
            &&& k < planner::plan_of(q).steps.len()
            &&& step is ExpandHop
            &&& meaning::step_holds(s, nodes, edges, step, row) <==> are_joined(
                edges,
                (steps[2 * k - 2]->Node_0).alias,
                steps[2 * k - 1]->Edge_0,
                (steps[2 * k]->Node_0).alias,
                row,
            ) && hydration::meets_all(
                row,
                distributed::hop_conditions(step->ExpandHop_0),
                meaning::graph_records(nodes, edges),
            )
        }),
{
    planner::lemma_plan_steps(q, 0);
    planner::lemma_plan_steps(q, k);
    dsl::laws::law_valid_patterns_follow_the_schema(q, s, 2 * k - 1);
    assert(q.pattern.steps[2 * k - 1] is Edge);
}

/// The filters of the conditions on an alias come from those conditions.
proof fn lemma_filter_has_condition(
    conditions: Seq<WhereConditionView>,
    alias: Seq<char>,
    j: int,
) -> (i: int)
    requires
        0 <= j < planner::filters_on(conditions, alias).len(),
    ensures
        0 <= i < conditions.len(),
        conditions[i] == WhereConditionView::Property(
            alias,
            planner::filters_on(conditions, alias)[j],
        ),
    decreases conditions.len(),
{
    let shorter = conditions.drop_last();
    if j < planner::filters_on(shorter, alias).len() {
        let i = lemma_filter_has_condition(shorter, alias, j);
        assert(shorter[i] == conditions[i]);
        i
    } else {
        conditions.len() - 1
    }
}

/// The conditions that remain are conditions of the query.
proof fn lemma_remaining_has_condition(
    conditions: Seq<WhereConditionView>,
    steps: Seq<PatternStepView>,
    j: int,
) -> (i: int)
    requires
        0 <= j < planner::remaining_conditions(conditions, steps).len(),
    ensures
        0 <= i < conditions.len(),
        ({
            let (alias, filter) = planner::remaining_conditions(conditions, steps)[j];
            conditions[i] == WhereConditionView::Property(alias, filter)
        }),
    decreases conditions.len(),
{
    let shorter = conditions.drop_last();
    if j < planner::remaining_conditions(shorter, steps).len() {
        let i = lemma_remaining_has_condition(shorter, steps, j);
        assert(shorter[i] == conditions[i]);
        i
    } else {
        conditions.len() - 1
    }
}

/// The filters that remain are those of a later node of the pattern.
proof fn lemma_remaining_has_node(steps: Seq<PatternStepView>, j: int) -> (at: (int, int))
    requires
        0 <= j < planner::remaining_filters(steps).len(),
    ensures
        1 <= at.0 < steps.len(),
        steps[at.0] is Node,
        0 <= at.1 < (steps[at.0]->Node_0).property_filters.len(),
        planner::remaining_filters(steps)[j] == (
            (steps[at.0]->Node_0).alias,
            (steps[at.0]->Node_0).property_filters[at.1],
        ),
    decreases steps.len(),
{
    let shorter = steps.drop_last();
    let rest = planner::remaining_filters(shorter);
    if j < rest.len() {
        let at = lemma_remaining_has_node(shorter, j);
        assert(shorter[at.0] == steps[at.0]);
        at
    } else {
        (steps.len() - 1, j - rest.len())
    }
}

proof fn lemma_label_is_bound(steps: Seq<PatternStepView>, alias: Seq<char>)
    ensures
        validator::label_of(steps, alias) is Some ==> validator::binds_node(steps, alias),
    decreases steps.len(),
{
    if steps.len() > 0 {
        let shorter = steps.drop_last();
        lemma_label_is_bound(shorter, alias);
        assert(steps[steps.len() - 1] == steps.last());
        if validator::binds_node(shorter, alias) {
            let i = choose|i: int|
                0 <= i < shorter.len() && (#[trigger] shorter[i] matches PatternStepView::Node(n)
                    && n.alias == alias);
            assert(steps[i] == shorter[i]);
        }
    }
}

proof fn lemma_type_is_bound(steps: Seq<PatternStepView>, alias: Seq<char>)
    ensures
        validator::edge_type_of(steps, alias) is Some ==> planner::names_edge(steps, alias),
    decreases steps.len(),
{
    if steps.len() > 0 {
        let shorter = steps.drop_last();
        lemma_type_is_bound(shorter, alias);
        assert(steps[steps.len() - 1] == steps.last());
        if planner::names_edge(shorter, alias) {
            let i = choose|i: int|
                0 <= i < shorter.len() && (#[trigger] shorter[i]) is Edge && (
                shorter[i]->Edge_0).alias == Some(alias);
            assert(steps[i] == shorter[i]);
        }
    }
}

/// Whether a row meets the filters of all hops of a plan, and what remains.
spec fn meets_plan(q: QueryView, row: BindingView, records: RecordsView) -> bool {
    let plan = planner::plan_of(q);
    &&& hydration::meets_all(row, plan.remaining, records)
    &&& forall|k: int|
        1 <= k <= whole_plan::edge_count(q) ==> hydration::meets_all(
            row,
            distributed::hop_conditions((#[trigger] plan.steps[k])->ExpandHop_0),
            records,
        )
}

/// Whether a row has the properties that the later nodes of a pattern ask for,
/// and meets the conditions on properties.
spec fn meets_query(q: QueryView, row: BindingView, records: RecordsView) -> bool {
    &&& forall|k: int|
        1 <= k < q.pattern.steps.len() && (#[trigger] q.pattern.steps[k]) is Node
            ==> has_properties(q.pattern.steps[k]->Node_0, row, records)
    &&& forall|i: int|
        0 <= i < q.where_conditions.len() ==> ((
        #[trigger] q.where_conditions[i]) matches WhereConditionView::Property(alias, filter)
            ==> hydration::meets_condition(row, (alias, filter), records))
}

proof fn lemma_plan_asks_no_more(q: QueryView, row: BindingView, records: RecordsView)
    requires
        planner::plannable(q),
        meets_query(q, row, records),
    ensures
        meets_plan(q, row, records),
{
    let plan = planner::plan_of(q);
    let steps = q.pattern.steps;
    let filters = planner::remaining_filters(steps);
    let conditions = planner::remaining_conditions(q.where_conditions, steps);
    assert forall|j: int| 0 <= j < plan.remaining.len() implies hydration::meets_condition(
        row,
        #[trigger] plan.remaining[j],
        records,
    ) by {
        if j < filters.len() {
            let (k, i) = lemma_remaining_has_node(steps, j);
            assert(steps[k] is Node);
            assert(has_properties(steps[k]->Node_0, row, records));
            assert(plan.remaining[j] == filters[j]);
            let f = (steps[k]->Node_0).property_filters[i];
            assert(hydration::meets_condition(row, ((steps[k]->Node_0).alias, f), records));
        } else {
            let i = lemma_remaining_has_condition(q.where_conditions, steps, j - filters.len());
            assert(plan.remaining[j] == conditions[j - filters.len()]);
            assert(q.where_conditions[i] is Property);
        }
    }
    planner::lemma_plan_steps(q, 0);
    assert forall|k: int| 1 <= k <= whole_plan::edge_count(q) implies hydration::meets_all(
        row,
        distributed::hop_conditions((#[trigger] plan.steps[k])->ExpandHop_0),
        records,
    ) by {
        planner::lemma_plan_steps(q, k);
        let hop = plan.steps[k]->ExpandHop_0;
        let to = steps[2 * k]->Node_0;
        let asked = distributed::hop_conditions(hop);
        assert(steps[2 * k] is Node);
        assert(has_properties(to, row, records));
        assert forall|j: int| 0 <= j < asked.len() implies hydration::meets_condition(
            row,
            #[trigger] asked[j],
            records,
        ) by {
            assert(asked[j] == (to.alias, hop.filters[j]));
            if j < to.property_filters.len() {
                assert(hop.filters[j] == to.property_filters[j]);
            } else {
                let at = j - to.property_filters.len();
                let i = lemma_filter_has_condition(q.where_conditions, to.alias, at);
                assert(hop.filters[j] == planner::filters_on(q.where_conditions, to.alias)[at]);
                assert(q.where_conditions[i] is Property);
            }
        }
    }
}

proof fn lemma_plan_asks_no_less(q: QueryView, s: SchemaView, row: BindingView, records: RecordsView)
    requires
        planner::plannable(q),
        validator::query_errors(q, s).len() == 0,
        meets_plan(q, row, records),
    ensures
        meets_query(q, row, records),
{
    let plan = planner::plan_of(q);
    let steps = q.pattern.steps;
    assert forall|k: int| 1 <= k < steps.len() && (#[trigger] steps[k]) is Node implies
        has_properties(steps[k]->Node_0, row, records) by {
        let n = steps[k]->Node_0;
        assert(k % 2 == 0);
        let h = k / 2;
        assert(2 * h == k);
        assert forall|i: int| 0 <= i < n.property_filters.len() implies hydration::meets_condition(
            row,
            (n.alias, #[trigger] n.property_filters[i]),
            records,
        ) by {
            planner::law_filters_are_enforced(q, h, i);
            let f = n.property_filters[i];
            if n.label is Some {
                lemma_hop_asks(q, row, records, h, f);
            } else {
                lemma_remaining_asks(q, row, records, (n.alias, f));
            }
        }
    }
    let scope = ScopeView { steps, inner: None };
    assert forall|i: int| 0 <= i < q.where_conditions.len() implies ((
    #[trigger] q.where_conditions[i]) matches WhereConditionView::Property(alias, filter)
        ==> hydration::meets_condition(row, (alias, filter), records)) by {
        if let WhereConditionView::Property(alias, filter) = q.where_conditions[i] {
            dsl::laws::lemma_condition_errors(q.where_conditions, s, scope, i);
            lemma_label_is_bound(steps, alias);
            lemma_type_is_bound(steps, alias);
            planner::law_conditions_are_enforced(q, i, alias, filter, 0);
            if planner::checked_at_the_end(steps, alias) {
                lemma_remaining_asks(q, row, records, (alias, filter));
            } else {
                assert(validator::binds_node(steps, alias));
                let j = choose|j: int|
                    1 <= j <= (steps.len() - 1) / 2 && (
                    #[trigger] plan.steps[j] matches PlanStepView::ExpandHop(hop) && hop.to_alias
                        == alias && hop.filters.contains(filter));
                lemma_hop_asks(q, row, records, j, filter);
            }
        }
    }
}

proof fn lemma_hop_asks(
    q: QueryView,
    row: BindingView,
    records: RecordsView,
    k: int,
    filter: PropertyFilterView,
)
    requires
        meets_plan(q, row, records),
        1 <= k <= whole_plan::edge_count(q),
        (planner::plan_of(q).steps[k]->ExpandHop_0).filters.contains(filter),
    ensures
        hydration::meets_condition(
            row,
            ((planner::plan_of(q).steps[k]->ExpandHop_0).to_alias, filter),
            records,
        ),
{
    let hop = planner::plan_of(q).steps[k]->ExpandHop_0;
    let j = choose|j: int| 0 <= j < hop.filters.len() && hop.filters[j] == filter;
    let asked = distributed::hop_conditions(hop);
    assert(asked[j] == (hop.to_alias, filter));
}

proof fn lemma_remaining_asks(
    q: QueryView,
    row: BindingView,
    records: RecordsView,
    entry: (Seq<char>, PropertyFilterView),
)
    requires
        meets_plan(q, row, records),
        planner::plan_of(q).remaining.contains(entry),
    ensures
        hydration::meets_condition(row, entry, records),
{
    let remaining = planner::plan_of(q).remaining;
    let j = choose|j: int| 0 <= j < remaining.len() && remaining[j] == entry;
    assert(hydration::meets_condition(row, remaining[j], records));
}

/// Every `NOT EXISTS` of a query has its check in the plan.
proof fn lemma_not_exists_has_check(conditions: Seq<WhereConditionView>, i: int) -> (j: int)
    requires
        0 <= i < conditions.len(),
        conditions[i] is NotExists,
    ensures
        0 <= j < planner::anti_join_steps(conditions).len(),
        planner::anti_join_steps(conditions)[j] == PlanStepView::AntiJoin(
            planner::anti_join_step(conditions[i]->NotExists_0),
        ),
    decreases conditions.len(),
{
    let shorter = conditions.drop_last();
    if i < shorter.len() {
        assert(shorter[i] == conditions[i]);
        lemma_not_exists_has_check(shorter, i)
    } else {
        planner::anti_join_steps(shorter).len() as int
    }
}

/// The rows that the plan of a valid query holds of are the matches of the
/// query, as long as node ids are unique and the property by which the query
/// finds its start is indexed.
pub proof fn law_plans_mean_what_their_queries_mean(
    q: QueryView,
    s: SchemaView,
    nodes: Seq<ScannedNodeView>,
    edges: Seq<ScannedEdgeView>,
    row: BindingView,
)
    requires
        planner::plannable(q),
        validator::query_errors(q, s).len() == 0,
        unique_nodes(nodes),
        start_is_indexed(q, s),
    ensures
        meaning::plan_holds(s, nodes, edges, planner::plan_of(q), row) <==> is_match(
            q,
            nodes,
            edges,
            row,
        ),
{
    let plan = planner::plan_of(q);
    let steps = q.pattern.steps;
    let records = meaning::graph_records(nodes, edges);
    let count = whole_plan::edge_count(q);
    planner::lemma_plan_steps(q, 0);
    lemma_names(q, s, row);
    assert(steps[0] is Node);
    if binds_names(steps, row) {
        assert(row.nodes.dom().contains((steps[0]->Node_0).alias)) by {
            assert(validator::binds_node(steps, (steps[0]->Node_0).alias));
        }
        lemma_start_is_start(q, s, nodes, edges, row);
        if meaning::plan_holds(s, nodes, edges, plan, row) {
            lemma_match_of_plan(q, s, nodes, edges, row);
        }
        if is_match(q, nodes, edges, row) {
            lemma_plan_of_match(q, s, nodes, edges, row);
        }
    }
}

proof fn lemma_match_of_plan(
    q: QueryView,
    s: SchemaView,
    nodes: Seq<ScannedNodeView>,
    edges: Seq<ScannedEdgeView>,
    row: BindingView,
)
    requires
        planner::plannable(q),
        validator::query_errors(q, s).len() == 0,
        unique_nodes(nodes),
        start_is_indexed(q, s),
        binds_names(q.pattern.steps, row),
        meaning::plan_holds(s, nodes, edges, planner::plan_of(q), row),
    ensures
        is_match(q, nodes, edges, row),
{
    let plan = planner::plan_of(q);
    let steps = q.pattern.steps;
    let records = meaning::graph_records(nodes, edges);
    let count = whole_plan::edge_count(q);
    planner::lemma_plan_steps(q, 0);
    assert(validator::binds_node(steps, (steps[0]->Node_0).alias)) by {
        assert(steps[0] is Node);
    }
    lemma_start_is_start(q, s, nodes, edges, row);
    assert(meaning::step_holds(s, nodes, edges, plan.steps[0], row));
    assert forall|k: int| 1 <= k <= count implies hydration::meets_all(
        row,
        distributed::hop_conditions((#[trigger] plan.steps[k])->ExpandHop_0),
        records,
    ) by {
        lemma_hop_is_edge(q, s, nodes, edges, row, k);
        assert(meaning::step_holds(s, nodes, edges, plan.steps[k], row));
    }
    lemma_plan_asks_no_less(q, s, row, records);
    assert forall|k: int| 0 <= k < steps.len() && steps[k] is Edge implies #[trigger] step_joins(
        edges,
        steps,
        k,
        row,
    ) by {
        assert(k % 2 == 1);
        let h = (k + 1) / 2;
        assert(2 * h - 1 == k);
        lemma_hop_is_edge(q, s, nodes, edges, row, h);
        assert(meaning::step_holds(s, nodes, edges, plan.steps[h], row));
    }
    assert forall|i: int| 0 <= i < q.where_conditions.len() implies condition_holds(
        edges,
        #[trigger] q.where_conditions[i],
        row,
        records,
    ) by {
        if let WhereConditionView::NotExists(sub) = q.where_conditions[i] {
            let j = lemma_not_exists_has_check(q.where_conditions, i);
            let k = 1 + count + j;
            planner::lemma_plan_steps(q, k);
            assert(meaning::step_holds(s, nodes, edges, plan.steps[k], row));
            lemma_check_is_not_exists(s, nodes, edges, sub, row);
        }
    }
}

proof fn lemma_plan_of_match(
    q: QueryView,
    s: SchemaView,
    nodes: Seq<ScannedNodeView>,
    edges: Seq<ScannedEdgeView>,
    row: BindingView,
)
    requires
        planner::plannable(q),
        validator::query_errors(q, s).len() == 0,
        unique_nodes(nodes),
        start_is_indexed(q, s),
        is_match(q, nodes, edges, row),
    ensures
        meaning::plan_holds(s, nodes, edges, planner::plan_of(q), row),
{
    let plan = planner::plan_of(q);
    let steps = q.pattern.steps;
    let records = meaning::graph_records(nodes, edges);
    let count = whole_plan::edge_count(q);
    planner::lemma_plan_steps(q, 0);
    lemma_names(q, s, row);
    assert(steps[0] is Node);
    assert(validator::binds_node(steps, (steps[0]->Node_0).alias));
    lemma_start_is_start(q, s, nodes, edges, row);
    assert(meets_query(q, row, records)) by {
        assert forall|i: int| 0 <= i < q.where_conditions.len() implies ((
        #[trigger] q.where_conditions[i]) matches WhereConditionView::Property(alias, filter)
            ==> hydration::meets_condition(row, (alias, filter), records)) by {
            assert(condition_holds(edges, q.where_conditions[i], row, records));
        }
    }
    lemma_plan_asks_no_more(q, row, records);
    assert forall|k: int| 0 <= k <= plan.steps.len() - 1 implies meaning::step_holds(
        s,
        nodes,
        edges,
        #[trigger] plan.steps[k],
        row,
    ) by {
        if k > 0 && k <= count {
            lemma_hop_is_edge(q, s, nodes, edges, row, k);
            assert(steps[2 * k - 1] is Edge);
            assert(step_joins(edges, steps, 2 * k - 1, row));
        } else if k > count {
            planner::lemma_plan_steps(q, k);
            let i = planner::lemma_anti_join_steps(q.where_conditions, k - 1 - count);
            let sub = q.where_conditions[i]->NotExists_0;
            assert(condition_holds(edges, q.where_conditions[i], row, records));
            lemma_check_is_not_exists(s, nodes, edges, sub, row);
        }
    }
}

/// A cluster answers a valid query with its matches in the graph, and with
/// nothing else, whatever was asked and answered on the way, as long as the
/// replicas answer from the indexes of their partitions. The query names its
/// nodes and its edges apart, and the property by which it finds its start is
/// indexed; in the graph ids are unique, and every edge leads from a node to a
/// node.
pub proof fn law_a_cluster_gives_the_matches_of_the_query<R: PartitionRpc>(
    rpc: R,
    map: PartitionMap,
    g: IndexGeneration,
    gs: Seq<IndexGeneration>,
    s: SchemaView,
    nodes: Seq<ScannedNodeView>,
    edges: Seq<ScannedEdgeView>,
    q: QueryView,
    run: PlanRun,
    row: BindingView,
)
    requires
        agreement::holds_all(g, s, nodes, edges),
        agreement::divides(gs, s, nodes, edges),
        agreement::no_dangling(nodes, edges),
        agreement::unique_edges(edges),
        unique_nodes(nodes),
        whole_plan::all_serve(rpc, map, gs),
        planner::plannable(q),
        validator::query_errors(q, s).len() == 0,
        whole_plan::well_named(q),
        start_is_indexed(q, s),
        distributed::asked_plan(rpc, map, gs.len() as u32, planner::plan_of(q), run),
    ensures
        distributed::plan_outcome(map, gs.len() as u32, planner::plan_of(q), run) is Ok,
        (distributed::plan_outcome(
            map,
            gs.len() as u32,
            planner::plan_of(q),
            run,
        )->Ok_0).contains(row) <==> is_match(q, nodes, edges, row),
{
    meaning::law_a_cluster_gives_the_rows_that_the_plan_holds_of(
        rpc,
        map,
        g,
        gs,
        s,
        nodes,
        edges,
        q,
        run,
        row,
    );
    law_plans_mean_what_their_queries_mean(q, s, nodes, edges, row);
}

} // verus!
