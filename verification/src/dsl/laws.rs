//! What holds of queries that were read from text, and of queries that are
//! valid.
use crate::dsl;
use crate::dsl::parser;
use crate::dsl::validator;
use crate::dsl::validator::ScopeView;
use crate::dsl::{
    ComparisonOp, Direction, ExistsSubqueryView, PatternStepView, PropertyFilterView, QueryView,
    WhereConditionView,
};
use crate::schema;
use crate::schema::SchemaView;
use crate::text::SourceView;
use vstd::prelude::*;

verus! {

/// That steps are pairs of an edge and a node.
spec fn pairs(steps: Seq<PatternStepView>) -> bool {
    &&& steps.len() % 2 == 0
    &&& forall|i: int|
        #![trigger steps[i]]
        0 <= i < steps.len() ==> (if i % 2 == 0 {
            steps[i] is Edge
        } else {
            steps[i] is Node
        })
}

proof fn lemma_more_steps(src: SourceView, pos: int)
    ensures
        pairs(parser::more_steps_at(src, pos).0),
    decreases src.chars.len() - pos,
{
    if let Some((edge, p)) = parser::edge_pattern_at(src, pos) {
        if let Some((node, q)) = parser::node_pattern_at(src, p) {
            if pos < q <= src.chars.len() {
                lemma_more_steps(src, q);
                let rest = parser::more_steps_at(src, q).0;
                let first = seq![PatternStepView::Edge(edge), PatternStepView::Node(node)];
                let all = first + rest;
                assert(parser::more_steps_at(src, pos).0 == all);
                assert forall|i: int|
                    #![trigger all[i]]
                    0 <= i < all.len() implies (if i % 2 == 0 {
                    all[i] is Edge
                } else {
                    all[i] is Node
                }) by {
                    if i >= 2 {
                        assert(all[i] == rest[i - 2]);
                        assert((i - 2) % 2 == i % 2);
                    }
                }
            }
        }
    }
}

/// A pattern that was read goes from node to node.
pub proof fn law_read_patterns_alternate(src: SourceView, pos: int)
    ensures
        parser::pattern_at(src, pos) matches Some((pattern, _)) ==> dsl::alternates(pattern.steps),
{
    if let Some((node, p)) = parser::node_pattern_at(src, pos) {
        lemma_more_steps(src, p);
        let rest = parser::more_steps_at(src, p).0;
        let all = seq![PatternStepView::Node(node)] + rest;
        assert forall|i: int|
            #![trigger all[i]]
            0 <= i < all.len() implies (if i % 2 == 0 {
            all[i] is Node
        } else {
            all[i] is Edge
        }) by {
            if i >= 1 {
                assert(all[i] == rest[i - 1]);
                assert((i - 1) % 2 == 0 <==> i % 2 == 1);
            }
        }
    }
}

/// The pattern of a query that was read goes from node to node.
pub proof fn law_read_queries_alternate(source: Seq<char>)
    ensures
        parser::query_of(source) matches Ok(q) ==> dsl::alternates(q.pattern.steps),
{
    let src = SourceView { chars: source, comments: false };
    if let Some(p) = crate::text::word_at(src, 0, "MATCH"@) {
        law_read_patterns_alternate(src, p);
    }
}

/// That all filters are for equality.
pub open spec fn all_equalities(filters: Seq<PropertyFilterView>) -> bool {
    forall|i: int| 0 <= i < filters.len() ==> (#[trigger] filters[i]).op == ComparisonOp::Eq
}

/// That the nodes of a pattern have filters for equality only.
pub open spec fn asks_for_equality(steps: Seq<PatternStepView>) -> bool {
    forall|i: int|
        0 <= i < steps.len() && (#[trigger] steps[i]) is Node ==> all_equalities(
            (steps[i]->Node_0).property_filters,
        )
}

proof fn lemma_more_property_kvs(src: SourceView, pos: int)
    ensures
        all_equalities(parser::more_property_kvs_at(src, pos).0),
    decreases src.chars.len() - pos,
{
    if let Some(p) = crate::text::word_at(src, pos, ","@) {
        if let Some((kv, q)) = parser::property_kv_at(src, p) {
            if pos < q <= src.chars.len() {
                lemma_more_property_kvs(src, q);
            }
        }
    }
}

proof fn lemma_node_pattern(src: SourceView, pos: int)
    ensures
        parser::node_pattern_at(src, pos) matches Some((n, _)) ==> all_equalities(
            n.property_filters,
        ),
{
    if let Some(p) = crate::text::word_at(src, pos, "("@) {
        if let Some((_, q)) = crate::text::ident_at(src, p) {
            let r = parser::type_suffix_at(src, q).1;
            if let Some(t) = crate::text::word_at(src, r, "{"@) {
                if let Some((_, u)) = parser::property_kv_at(src, t) {
                    lemma_more_property_kvs(src, u);
                }
            }
        }
    }
}

proof fn lemma_more_steps_ask_for_equality(src: SourceView, pos: int)
    ensures
        asks_for_equality(parser::more_steps_at(src, pos).0),
    decreases src.chars.len() - pos,
{
    if let Some((edge, p)) = parser::edge_pattern_at(src, pos) {
        if let Some((node, q)) = parser::node_pattern_at(src, p) {
            if pos < q <= src.chars.len() {
                lemma_node_pattern(src, p);
                lemma_more_steps_ask_for_equality(src, q);
                let rest = parser::more_steps_at(src, q).0;
                let all = seq![PatternStepView::Edge(edge), PatternStepView::Node(node)] + rest;
                assert forall|i: int| 0 <= i < all.len() && (#[trigger] all[i]) is Node implies
                    all_equalities((all[i]->Node_0).property_filters) by {
                    if i >= 2 {
                        assert(all[i] == rest[i - 2]);
                    }
                }
            }
        }
    }
}

/// The filters that the pattern of a query gives with its nodes are for
/// equality.
pub proof fn law_read_patterns_ask_for_equality(source: Seq<char>)
    ensures
        parser::query_of(source) matches Ok(q) ==> asks_for_equality(q.pattern.steps),
{
    let src = SourceView { chars: source, comments: false };
    if let Some(p) = crate::text::word_at(src, 0, "MATCH"@) {
        lemma_node_pattern(src, p);
        if let Some((node, q)) = parser::node_pattern_at(src, p) {
            lemma_more_steps_ask_for_equality(src, q);
            let rest = parser::more_steps_at(src, q).0;
            let all = seq![PatternStepView::Node(node)] + rest;
            assert forall|i: int| 0 <= i < all.len() && (#[trigger] all[i]) is Node implies
                all_equalities((all[i]->Node_0).property_filters) by {
                if i >= 1 {
                    assert(all[i] == rest[i - 1]);
                }
            }
        }
    }
}

/// A valid query has no fault in any of its conditions.
pub proof fn lemma_condition_errors(
    conditions: Seq<WhereConditionView>,
    s: SchemaView,
    scope: ScopeView,
    i: int,
)
    requires
        0 <= i < conditions.len(),
        validator::conditions_errors(conditions, s, scope).len() == 0,
    ensures
        validator::condition_errors(conditions[i], s, scope).len() == 0,
    decreases conditions.len(),
{
    if i > 0 {
        lemma_condition_errors(conditions.drop_first(), s, scope, i - 1);
        assert(conditions.drop_first()[i - 1] == conditions[i]);
    }
}

proof fn lemma_inner_condition_errors(
    conditions: Seq<WhereConditionView>,
    s: SchemaView,
    scope: ScopeView,
    i: int,
)
    requires
        0 <= i < conditions.len(),
        validator::inner_conditions_errors(conditions, s, scope).len() == 0,
    ensures
        validator::inner_condition_errors(conditions[i], s, scope).len() == 0,
    decreases conditions.len(),
{
    if i > 0 {
        lemma_inner_condition_errors(conditions.drop_first(), s, scope, i - 1);
        assert(conditions.drop_first()[i - 1] == conditions[i]);
    }
}

/// That a `NOT EXISTS` is one outgoing hop between two nodes that the
/// enclosing pattern binds, and holds no other `NOT EXISTS`.
pub open spec fn correlated(sub: ExistsSubqueryView, steps: Seq<PatternStepView>) -> bool {
    &&& validator::one_hop(sub.pattern.steps)
    &&& validator::binds_node(steps, (sub.pattern.steps[0]->Node_0).alias)
    &&& validator::binds_node(steps, (sub.pattern.steps[2]->Node_0).alias)
    &&& (sub.pattern.steps[1]->Edge_0).direction == Direction::Outgoing
    &&& (sub.pattern.steps[1]->Edge_0).hops.min == 1
    &&& (sub.pattern.steps[1]->Edge_0).hops.max == 1
    &&& forall|j: int|
        0 <= j < sub.where_conditions.len() ==> !((
        #[trigger] sub.where_conditions[j]) is NotExists)
}

/// In a valid query every `NOT EXISTS` is one outgoing hop between nodes that
/// the query binds, without another one inside.
pub proof fn law_valid_queries_correlate_not_exists(q: QueryView, s: SchemaView, i: int)
    requires
        validator::query_errors(q, s).len() == 0,
        0 <= i < q.where_conditions.len(),
    ensures
        q.where_conditions[i] matches WhereConditionView::NotExists(sub) ==> correlated(
            sub,
            q.pattern.steps,
        ),
{
    let scope = ScopeView { steps: q.pattern.steps, inner: None };
    lemma_condition_errors(q.where_conditions, s, scope, i);
    if let WhereConditionView::NotExists(sub) = q.where_conditions[i] {
        let edge = sub.pattern.steps[1]->Edge_0;
        let inner = ScopeView { steps: q.pattern.steps, inner: Some(edge) };
        assert forall|j: int| 0 <= j < sub.where_conditions.len() implies !((
        #[trigger] sub.where_conditions[j]) is NotExists) by {
            lemma_inner_condition_errors(sub.where_conditions, s, inner, j);
        }
    }
}

proof fn lemma_step_errors(steps: Seq<PatternStepView>, s: SchemaView, i: int)
    requires
        0 <= i < steps.len(),
        validator::steps_errors(steps, s).len() == 0,
    ensures
        validator::step_errors(steps[i], s).len() == 0,
    decreases steps.len(),
{
    if i > 0 {
        lemma_step_errors(steps.drop_first(), s, i - 1);
        assert(steps.drop_first()[i - 1] == steps[i]);
    }
}

/// In a valid query every label and every edge type of the pattern is
/// declared, and an alias of an edge stands on a single hop only.
pub proof fn law_valid_patterns_follow_the_schema(q: QueryView, s: SchemaView, i: int)
    requires
        validator::query_errors(q, s).len() == 0,
        0 <= i < q.pattern.steps.len(),
    ensures
        match q.pattern.steps[i] {
            PatternStepView::Node(n) => n.label matches Some(label) ==> schema::find_node(
                s.nodes,
                label,
            ) is Some,
            PatternStepView::Edge(e) => {
                &&& e.edge_type matches Some(t) ==> schema::find_edge(s.edges, t) is Some
                &&& e.alias is Some ==> e.hops.min == 1 && e.hops.max == 1
            },
        },
{
    lemma_step_errors(q.pattern.steps, s, i);
}

} // verus!
