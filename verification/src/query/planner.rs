//! Turns a validated query into a plan, step by step in the order of its
//! pattern.
//!
//! A pattern starts at a labelled node with at most one filter, for equality,
//! which finds the node through the index. The filters of a later node that has a label
//! are those of the hop that leads to it; what no step enforces remains to be
//! checked of each row. Comparisons of aliases with each other, and
//! comparisons of two properties outside a `NOT EXISTS`, put no restriction
//! on a plan.
use crate::dsl;
use crate::dsl::validator;
use crate::dsl::{
    ComparisonOp, EdgePattern, EdgePatternView, ExistsSubquery, ExistsSubqueryView, Literal,
    LiteralView, NodePattern, NodePatternView, PatternStep, PatternStepView, PropertyFilter,
    PropertyFilterView, PropertyRef, PropertyRefView, Query, QueryView, WhereCondition,
    WhereConditionView,
};
use crate::index::{PropertyKey, PropertyKeyView};
use crate::query;
use crate::query::filter_eval;
use crate::query::{
    AntiJoinStep, AntiJoinStepView, ExpandHopView, PlanStep, PlanStepView, QueryPlan, QueryPlanView,
};
use crate::schema::SchemaView;
use crate::text;
use crate::text::Duplicate;
use vstd::prelude::*;

verus! {

/// Whether the property index has a key for a literal. It has none for a
/// number with a fraction.
pub open spec fn keyable(l: LiteralView) -> bool {
    !(l is Float64) && !(l is FloatText)
}

/// The key of a literal.
pub open spec fn literal_key(l: LiteralView) -> PropertyKeyView {
    match l {
        LiteralView::Int64(v) => PropertyKeyView::Int64(v),
        LiteralView::Bool(v) => PropertyKeyView::Bool(v),
        LiteralView::String(v) => PropertyKeyView::String(v),
        _ => arbitrary(),
    }
}

pub(crate) fn literal_to_property_key(literal: &Literal) -> (r: PropertyKey)
    requires
        keyable(literal@),
    ensures
        r@ == literal_key(literal@),
{
    match literal {
        Literal::Int64(v) => PropertyKey::Int64(*v),
        Literal::Bool(v) => PropertyKey::Bool(*v),
        Literal::String(v) => PropertyKey::String(v.clone()),
        Literal::Float64(_) => PropertyKey::Int64(0),
        Literal::FloatText(_) => PropertyKey::Int64(0),
    }
}

/// That the start of a pattern can be planned.
pub open spec fn start_plannable(n: NodePatternView) -> bool {
    &&& n.label is Some
    &&& n.property_filters.len() <= 1
    &&& n.property_filters.len() == 1 ==> n.property_filters[0].op == ComparisonOp::Eq && keyable(
        n.property_filters[0].value,
    )
}

/// That a condition can be planned.
pub open spec fn condition_plannable(c: WhereConditionView) -> bool {
    c matches WhereConditionView::NotExists(sub) ==> validator::one_hop(sub.pattern.steps)
}

/// That a query can be planned.
pub open spec fn plannable(q: QueryView) -> bool {
    &&& dsl::alternates(q.pattern.steps)
    &&& start_plannable(q.pattern.steps[0]->Node_0)
    &&& forall|i: int|
        0 <= i < q.where_conditions.len() ==> condition_plannable(#[trigger] q.where_conditions[i])
}

/// How the start of a pattern is resolved: by its filter, or, without one, by
/// its label alone.
pub open spec fn start_step(n: NodePatternView) -> PlanStepView {
    let label = n.label->Some_0;
    if n.property_filters.len() == 0 {
        PlanStepView::ResolveAll { alias: n.alias, label }
    } else {
        PlanStepView::ResolveStart {
            alias: n.alias,
            label_or_type: label,
            property: n.property_filters[0].property,
            key: literal_key(n.property_filters[0].value),
        }
    }
}

/// The filters of the conditions that compare a property of `alias` with a
/// literal.
pub open spec fn filters_on(conditions: Seq<WhereConditionView>, alias: Seq<char>) -> Seq<
    PropertyFilterView,
>
    decreases conditions.len(),
{
    if conditions.len() == 0 {
        seq![]
    } else {
        let rest = filters_on(conditions.drop_last(), alias);
        match conditions.last() {
            WhereConditionView::Property(a, filter) => if a == alias {
                rest.push(filter)
            } else {
                rest
            },
            _ => rest,
        }
    }
}

/// How an edge of a pattern is walked. Without a label of the node it leads
/// to there is no index to filter that node by, and its filters remain to be
/// checked at the end.
pub open spec fn hop_step(
    from_alias: Seq<char>,
    edge: EdgePatternView,
    to: NodePatternView,
    conditions: Seq<WhereConditionView>,
) -> PlanStepView {
    PlanStepView::ExpandHop(
        ExpandHopView {
            from_alias,
            to_alias: to.alias,
            to_label: to.label,
            edge_type: edge.edge_type,
            direction: edge.direction,
            hops: edge.hops,
            filters: if to.label is Some {
                to.property_filters + filters_on(conditions, to.alias)
            } else {
                seq![]
            },
            edge_alias: edge.alias,
        },
    )
}

/// How the first `i` edges of a pattern are walked, in order.
pub open spec fn hop_steps(
    steps: Seq<PatternStepView>,
    conditions: Seq<WhereConditionView>,
    i: nat,
) -> Seq<PlanStepView>
    decreases i,
{
    if i == 0 {
        seq![]
    } else {
        let k = (i - 1) as int;
        hop_steps(steps, conditions, (i - 1) as nat).push(
            hop_step(
                (steps[2 * k]->Node_0).alias,
                steps[2 * k + 1]->Edge_0,
                steps[2 * k + 2]->Node_0,
                conditions,
            ),
        )
    }
}

/// Whether an alias is that of an edge of a pattern.
pub open spec fn names_edge(steps: Seq<PatternStepView>, alias: Seq<char>) -> bool {
    exists|i: int|
        0 <= i < steps.len() && (#[trigger] steps[i]) is Edge && (steps[i]->Edge_0).alias == Some(
            alias,
        )
}

/// Whether an alias is that of a later node of a pattern without a label.
pub open spec fn names_unlabelled(steps: Seq<PatternStepView>, alias: Seq<char>) -> bool {
    exists|i: int|
        1 <= i < steps.len() && (#[trigger] steps[i]) is Node && (steps[i]->Node_0).alias == alias
            && (steps[i]->Node_0).label is None
}

/// Filters, each with the alias that it is on.
pub open spec fn on_alias(alias: Seq<char>, filters: Seq<PropertyFilterView>) -> Seq<
    (Seq<char>, PropertyFilterView),
> {
    Seq::new(filters.len(), |i: int| (alias, filters[i]))
}

/// The filters of a step that no hop enforces: those of a node without a
/// label.
pub open spec fn left_filters(step: PatternStepView) -> Seq<(Seq<char>, PropertyFilterView)> {
    match step {
        PatternStepView::Node(n) => if n.label is None {
            on_alias(n.alias, n.property_filters)
        } else {
            seq![]
        },
        PatternStepView::Edge(_) => seq![],
    }
}

/// The filters of the later nodes of a pattern that no hop enforces.
pub open spec fn remaining_filters(steps: Seq<PatternStepView>) -> Seq<
    (Seq<char>, PropertyFilterView),
>
    decreases steps.len(),
{
    if steps.len() <= 1 {
        seq![]
    } else {
        remaining_filters(steps.drop_last()) + left_filters(steps.last())
    }
}

/// Whether no step enforces conditions on an alias: it is that of the start,
/// of an edge, or of a later node without a label.
pub open spec fn checked_at_the_end(steps: Seq<PatternStepView>, alias: Seq<char>) -> bool {
    alias == (steps[0]->Node_0).alias || names_edge(steps, alias) || names_unlabelled(steps, alias)
}

/// The conditions that no step enforces.
pub open spec fn remaining_conditions(
    conditions: Seq<WhereConditionView>,
    steps: Seq<PatternStepView>,
) -> Seq<(Seq<char>, PropertyFilterView)>
    decreases conditions.len(),
{
    if conditions.len() == 0 {
        seq![]
    } else {
        let rest = remaining_conditions(conditions.drop_last(), steps);
        match conditions.last() {
            WhereConditionView::Property(a, filter) => if checked_at_the_end(steps, a) {
                rest.push((a, filter))
            } else {
                rest
            },
            _ => rest,
        }
    }
}

/// All that remains to be checked of a row: filters of the pattern, then
/// conditions.
pub open spec fn remaining_of(q: QueryView) -> Seq<(Seq<char>, PropertyFilterView)> {
    remaining_filters(q.pattern.steps) + remaining_conditions(q.where_conditions, q.pattern.steps)
}

/// Whether an alias is that of the edge of a subquery.
pub open spec fn is_inner(alias: Seq<char>, inner: Option<Seq<char>>) -> bool {
    inner == Some(alias)
}

/// The conditions of a subquery that compare a property of its edge with a
/// literal.
pub open spec fn literal_conditions(
    conditions: Seq<WhereConditionView>,
    inner: Option<Seq<char>>,
) -> Seq<PropertyFilterView>
    decreases conditions.len(),
{
    if conditions.len() == 0 {
        seq![]
    } else {
        let rest = literal_conditions(conditions.drop_last(), inner);
        match conditions.last() {
            WhereConditionView::Property(a, filter) => if is_inner(a, inner) {
                rest.push(filter)
            } else {
                rest
            },
            _ => rest,
        }
    }
}

/// The conditions of a subquery that compare a property of its edge with a
/// property of something else, the edge on the left. One that has the edge on
/// the right is turned round.
pub open spec fn outer_conditions(
    conditions: Seq<WhereConditionView>,
    inner: Option<Seq<char>>,
) -> Seq<(Seq<char>, ComparisonOp, PropertyRefView)>
    decreases conditions.len(),
{
    if conditions.len() == 0 {
        seq![]
    } else {
        let rest = outer_conditions(conditions.drop_last(), inner);
        match conditions.last() {
            WhereConditionView::PropertyComparison { left, op, right } => if is_inner(
                left.alias,
                inner,
            ) {
                rest.push((left.property, op, right))
            } else if is_inner(right.alias, inner) {
                rest.push((right.property, filter_eval::flipped(op), left))
            } else {
                rest
            },
            _ => rest,
        }
    }
}

/// How a `NOT EXISTS` is checked.
pub open spec fn anti_join_step(sub: ExistsSubqueryView) -> AntiJoinStepView {
    let edge = sub.pattern.steps[1]->Edge_0;
    AntiJoinStepView {
        from_alias: (sub.pattern.steps[0]->Node_0).alias,
        to_alias: (sub.pattern.steps[2]->Node_0).alias,
        direction: edge.direction,
        edge_alias: edge.alias,
        edge_type: edge.edge_type,
        literal_conditions: literal_conditions(sub.where_conditions, edge.alias),
        outer_conditions: outer_conditions(sub.where_conditions, edge.alias),
    }
}

/// How the `NOT EXISTS` conditions of a query are checked, in order.
pub open spec fn anti_join_steps(conditions: Seq<WhereConditionView>) -> Seq<PlanStepView>
    decreases conditions.len(),
{
    if conditions.len() == 0 {
        seq![]
    } else {
        let rest = anti_join_steps(conditions.drop_last());
        match conditions.last() {
            WhereConditionView::NotExists(sub) => rest.push(
                PlanStepView::AntiJoin(anti_join_step(sub)),
            ),
            _ => rest,
        }
    }
}

/// The plan of a query: its start, its edges in order, then its `NOT EXISTS`
/// conditions.
pub open spec fn plan_of(q: QueryView) -> QueryPlanView {
    let steps = q.pattern.steps;
    QueryPlanView {
        steps: seq![start_step(steps[0]->Node_0)] + hop_steps(
            steps,
            q.where_conditions,
            ((steps.len() - 1) / 2) as nat,
        ) + anti_join_steps(q.where_conditions),
        remaining: remaining_of(q),
        project: q.returns,
    }
}

/// The operator that says the same with its sides exchanged.
pub fn flip_op(op: ComparisonOp) -> (r: ComparisonOp)
    ensures
        r == filter_eval::flipped(op),
{
    match op {
        ComparisonOp::Eq => ComparisonOp::Eq,
        ComparisonOp::Ne => ComparisonOp::Ne,
        ComparisonOp::Lt => ComparisonOp::Gt,
        ComparisonOp::Lte => ComparisonOp::Gte,
        ComparisonOp::Gt => ComparisonOp::Lt,
        ComparisonOp::Gte => ComparisonOp::Lte,
    }
}

fn resolve_start_or_all_step(node: &NodePattern) -> (r: PlanStep)
    requires
        start_plannable(node@),
    ensures
        r@ == start_step(node@),
{
    let label: String = match &node.label {
        Some(l) => l.0.clone(),
        None => String::new(),
    };
    if node.property_filters.len() == 0 {
        PlanStep::ResolveAll { alias: node.alias.clone(), label }
    } else {
        let filter = &node.property_filters[0];
        assert(node@.property_filters[0] == filter@);
        PlanStep::ResolveStart {
            alias: node.alias.clone(),
            label_or_type: label,
            property: filter.property.clone(),
            key: literal_to_property_key(&filter.value),
        }
    }
}

/// The filters of the conditions that compare a property of `alias` with a
/// literal.
fn collect_filters(conditions: &Vec<WhereCondition>, alias: &str) -> (r: Vec<PropertyFilter>)
    ensures
        text::views(r@) == filters_on(text::views(conditions@), alias@),
{
    let ghost all = text::views(conditions@);
    let mut found: Vec<PropertyFilter> = Vec::new();
    let mut i: usize = 0;
    assert(all.take(0) =~= Seq::<WhereConditionView>::empty());
    assert(text::views(found@) =~= Seq::<PropertyFilterView>::empty());
    while i < conditions.len()
        invariant
            i <= conditions@.len(),
            all == text::views(conditions@),
            text::views(found@) == filters_on(all.take(i as int), alias@),
        decreases conditions.len() - i,
    {
        assert(all.take(i + 1).drop_last() =~= all.take(i as int));
        assert(all.take(i + 1).last() == conditions@[i as int]@);
        if let WhereCondition::Property(a, filter) = &conditions[i] {
            if text::str_eq(a.as_str(), alias) {
                let copy = filter.duplicate();
                proof {
                    text::lemma_views_push(found@, copy);
                }
                found.push(copy);
            }
        }
        i = i + 1;
    }
    assert(all.take(all.len() as int) =~= all);
    found
}

fn is_inner_exec(alias: &String, inner: &Option<String>) -> (r: bool)
    ensures
        r == is_inner(alias@, text::option_view(*inner)),
{
    match inner {
        Some(i) => *i == *alias,
        None => false,
    }
}

proof fn lemma_outer_views_push(
    items: Seq<(String, ComparisonOp, PropertyRef)>,
    x: (String, ComparisonOp, PropertyRef),
)
    ensures
        query::outer_views(items.push(x)) == query::outer_views(items).push((x.0@, x.1, x.2@)),
{
    assert(query::outer_views(items.push(x)) =~= query::outer_views(items).push(
        (x.0@, x.1, x.2@),
    ));
}

fn compile_anti_join(sub: &ExistsSubquery) -> (r: AntiJoinStep)
    requires
        validator::one_hop(sub@.pattern.steps),
    ensures
        r@ == anti_join_step(sub@),
{
    let mut literal: Vec<PropertyFilter> = Vec::new();
    let mut outer: Vec<(String, ComparisonOp, PropertyRef)> = Vec::new();
    let parts = validator::one_hop_parts(&sub.pattern);
    let (from, edge, to) = parts.unwrap();
    let ghost inner = edge@.alias;
    let ghost all = text::views(sub.where_conditions@);
    let mut i: usize = 0;
    assert(all.take(0) =~= Seq::<WhereConditionView>::empty());
    assert(text::views(literal@) =~= Seq::<PropertyFilterView>::empty());
    assert(query::outer_views(outer@) =~= Seq::<
        (Seq<char>, ComparisonOp, PropertyRefView),
    >::empty());
    while i < sub.where_conditions.len()
        invariant
            i <= sub.where_conditions@.len(),
            all == text::views(sub.where_conditions@),
            inner == text::option_view(edge.alias),
            text::views(literal@) == literal_conditions(all.take(i as int), inner),
            query::outer_views(outer@) == outer_conditions(all.take(i as int), inner),
        decreases sub.where_conditions.len() - i,
    {
        assert(all.take(i + 1).drop_last() =~= all.take(i as int));
        assert(all.take(i + 1).last() == sub.where_conditions@[i as int]@);
        match &sub.where_conditions[i] {
            WhereCondition::Property(alias, filter) => {
                if is_inner_exec(alias, &edge.alias) {
                    let copy = filter.duplicate();
                    proof {
                        text::lemma_views_push(literal@, copy);
                    }
                    literal.push(copy);
                }
            },
            WhereCondition::PropertyComparison { left, op, right } => {
                if is_inner_exec(&left.alias, &edge.alias) {
                    let entry = (left.property.clone(), *op, right.duplicate());
                    proof {
                        lemma_outer_views_push(outer@, entry);
                    }
                    outer.push(entry);
                } else if is_inner_exec(&right.alias, &edge.alias) {
                    let entry = (right.property.clone(), flip_op(*op), left.duplicate());
                    proof {
                        lemma_outer_views_push(outer@, entry);
                    }
                    outer.push(entry);
                }
            },
            WhereCondition::AliasComparison { .. } => {},
            WhereCondition::NotExists(_) => {},
        }
        i = i + 1;
    }
    assert(all.take(all.len() as int) =~= all);
    AntiJoinStep {
        from_alias: from.alias.clone(),
        to_alias: to.alias.clone(),
        direction: edge.direction,
        edge_alias: text::duplicate_option(&edge.alias),
        edge_type: match &edge.edge_type {
            Some(t) => Some(t.0.clone()),
            None => None,
        },
        literal_conditions: literal,
        outer_conditions: outer,
    }
}

fn expand_step(
    from_alias: &String,
    edge: &EdgePattern,
    to: &NodePattern,
    conditions: &Vec<WhereCondition>,
) -> (r: PlanStep)
    ensures
        r@ == hop_step(from_alias@, edge@, to@, text::views(conditions@)),
{
    let to_label: Option<String> = match &to.label {
        Some(l) => Some(l.0.clone()),
        None => None,
    };
    let filters: Vec<PropertyFilter> = if to_label.is_some() {
        let mut own = text::duplicate_all(&to.property_filters);
        let mut more = collect_filters(conditions, to.alias.as_str());
        let ghost own_views = text::views(own@);
        let ghost more_views = text::views(more@);
        own.append(&mut more);
        assert(text::views(own@) =~= own_views + more_views);
        own
    } else {
        Vec::new()
    };
    assert(to.label is None ==> text::views(filters@) =~= Seq::<PropertyFilterView>::empty());
    PlanStep::ExpandHop {
        from_alias: from_alias.clone(),
        to_alias: to.alias.clone(),
        to_label,
        edge_type: match &edge.edge_type {
            Some(t) => Some(t.0.clone()),
            None => None,
        },
        direction: edge.direction,
        hops: edge.hops,
        filters,
        edge_alias: text::duplicate_option(&edge.alias),
    }
}

/// The node of a step.
fn node_of(step: &PatternStep) -> (r: Option<&NodePattern>)
    ensures
        match r {
            Some(n) => step@ == PatternStepView::Node(n@),
            None => !(step@ is Node),
        },
{
    match step {
        PatternStep::Node(n) => Some(n),
        PatternStep::Edge(_) => None,
    }
}

/// The edge of a step.
fn edge_of(step: &PatternStep) -> (r: Option<&EdgePattern>)
    ensures
        match r {
            Some(e) => step@ == PatternStepView::Edge(e@),
            None => !(step@ is Edge),
        },
{
    match step {
        PatternStep::Node(_) => None,
        PatternStep::Edge(e) => Some(e),
    }
}

/// Whether steps go from node to node.
pub fn pattern_alternates(steps: &Vec<PatternStep>) -> (r: bool)
    ensures
        r == dsl::alternates(text::views(steps@)),
{
    let ghost all = text::views(steps@);
    if steps.len() % 2 != 1 {
        return false;
    }
    let mut i: usize = 0;
    while i < steps.len()
        invariant
            i <= steps@.len(),
            all == text::views(steps@),
            forall|k: int|
                #![trigger all[k]]
                0 <= k < i ==> (if k % 2 == 0 {
                    all[k] is Node
                } else {
                    all[k] is Edge
                }),
        decreases steps.len() - i,
    {
        let node = node_of(&steps[i]).is_some();
        assert(all[i as int] == steps@[i as int]@);
        if node != (i % 2 == 0) {
            return false;
        }
        i = i + 1;
    }
    true
}

fn start_is_plannable(n: &NodePattern) -> (r: bool)
    ensures
        r == start_plannable(n@),
{
    if n.label.is_none() || n.property_filters.len() > 1 {
        return false;
    }
    if n.property_filters.len() > 0 {
        assert(n@.property_filters[0] == n.property_filters@[0]@);
        if n.property_filters[0].op != ComparisonOp::Eq {
            return false;
        }
        match &n.property_filters[0].value {
            Literal::Float64(_) => false,
            Literal::FloatText(_) => false,
            _ => true,
        }
    } else {
        true
    }
}

/// Whether a query can be planned.
pub fn is_plannable(query: &Query) -> (r: bool)
    ensures
        r == plannable(query@),
{
    if !pattern_alternates(&query.pattern.steps) {
        return false;
    }
    assert(query@.pattern.steps[0] == query.pattern.steps@[0]@);
    match node_of(&query.pattern.steps[0]) {
        Some(n) => {
            if !start_is_plannable(n) {
                return false;
            }
        },
        None => {
            return false;
        },
    }
    let mut i: usize = 0;
    while i < query.where_conditions.len()
        invariant
            i <= query.where_conditions@.len(),
            forall|k: int|
                0 <= k < i ==> condition_plannable(#[trigger] query@.where_conditions[k]),
        decreases query.where_conditions.len() - i,
    {
        assert(query@.where_conditions[i as int] == query.where_conditions@[i as int]@);
        if let WhereCondition::NotExists(sub) = &query.where_conditions[i] {
            proof {
                dsl::lemma_not_exists_view(*sub);
            }
            if validator::one_hop_parts(&sub.pattern).is_none() {
                assert(!condition_plannable(query@.where_conditions[i as int]));
                return false;
            }
        }
        i = i + 1;
    }
    true
}

/// Whether an alias is that of an edge of a pattern.
fn names_edge_exec(steps: &Vec<PatternStep>, alias: &String) -> (r: bool)
    ensures
        r == names_edge(text::views(steps@), alias@),
{
    let ghost all = text::views(steps@);
    let mut i: usize = 0;
    while i < steps.len()
        invariant
            i <= steps@.len(),
            all == text::views(steps@),
            forall|k: int|
                0 <= k < i ==> !((#[trigger] all[k]) is Edge && (all[k]->Edge_0).alias == Some(
                    alias@,
                )),
        decreases steps.len() - i,
    {
        assert(all[i as int] == steps@[i as int]@);
        if let PatternStep::Edge(e) = &steps[i] {
            if is_inner_exec(alias, &e.alias) {
                return true;
            }
        }
        i = i + 1;
    }
    false
}

proof fn lemma_conditions_on_push(
    items: Seq<(String, PropertyFilter)>,
    x: (String, PropertyFilter),
)
    ensures
        query::conditions_on(items.push(x)) == query::conditions_on(items).push((x.0@, x.1@)),
{
    assert(query::conditions_on(items.push(x)) =~= query::conditions_on(items).push(
        (x.0@, x.1@),
    ));
}

/// Whether an alias is that of a later node of a pattern without a label.
fn names_unlabelled_exec(steps: &Vec<PatternStep>, alias: &String) -> (r: bool)
    ensures
        r == names_unlabelled(text::views(steps@), alias@),
{
    let ghost all = text::views(steps@);
    let mut i: usize = 1;
    while i < steps.len()
        invariant
            1 <= i,
            all == text::views(steps@),
            forall|k: int|
                1 <= k < i && k < all.len() ==> !((#[trigger] all[k]) is Node && (
                all[k]->Node_0).alias == alias@ && (all[k]->Node_0).label is None),
        decreases steps.len() - i,
    {
        assert(all[i as int] == steps@[i as int]@);
        if let PatternStep::Node(n) = &steps[i] {
            if n.alias == *alias && n.label.is_none() {
                return true;
            }
        }
        i = i + 1;
    }
    false
}

/// Adds the filters of a node to what remains to be checked.
fn add_filters(found: &mut Vec<(String, PropertyFilter)>, node: &NodePattern)
    ensures
        query::conditions_on(final(found)@) == query::conditions_on(old(found)@) + on_alias(
            node@.alias,
            node@.property_filters,
        ),
{
    let ghost before = query::conditions_on(found@);
    let ghost all = node@.property_filters;
    let mut k: usize = 0;
    assert(before + on_alias(node@.alias, all.take(0)) =~= before);
    while k < node.property_filters.len()
        invariant
            k <= node.property_filters@.len(),
            all == text::views(node.property_filters@),
            query::conditions_on(found@) == before + on_alias(node@.alias, all.take(k as int)),
        decreases node.property_filters.len() - k,
    {
        let entry = (node.alias.clone(), node.property_filters[k].duplicate());
        proof {
            lemma_conditions_on_push(found@, entry);
            assert(all[k as int] == node.property_filters@[k as int]@);
            assert(before + on_alias(node@.alias, all.take(k + 1)) =~= (before + on_alias(
                node@.alias,
                all.take(k as int),
            )).push((entry.0@, entry.1@)));
        }
        found.push(entry);
        k = k + 1;
    }
    assert(all.take(k as int) =~= all);
}

/// What remains to be checked of a row.
fn remaining(query: &Query, start: &NodePattern) -> (r: Vec<(String, PropertyFilter)>)
    requires
        query@.pattern.steps.len() > 0,
        query@.pattern.steps[0] == PatternStepView::Node(start@),
    ensures
        query::conditions_on(r@) == remaining_of(query@),
{
    let ghost steps = query@.pattern.steps;
    let ghost all = query@.where_conditions;
    let mut found: Vec<(String, PropertyFilter)> = Vec::new();
    let mut k: usize = 1;
    assert(query::conditions_on(found@) =~= remaining_filters(steps.take(1)));
    while k < query.pattern.steps.len()
        invariant
            1 <= k <= query.pattern.steps@.len(),
            steps == text::views(query.pattern.steps@),
            query::conditions_on(found@) == remaining_filters(steps.take(k as int)),
        decreases query.pattern.steps.len() - k,
    {
        proof {
            assert(steps.take(k + 1).drop_last() =~= steps.take(k as int));
            assert(steps.take(k + 1).last() == query.pattern.steps@[k as int]@);
            let done = query::conditions_on(found@);
            assert(done + Seq::<(Seq<char>, PropertyFilterView)>::empty() =~= done);
        }
        if let PatternStep::Node(n) = &query.pattern.steps[k] {
            if n.label.is_none() {
                add_filters(&mut found, n);
            }
        }
        k = k + 1;
    }
    assert(steps.take(k as int) =~= steps);
    let ghost first = remaining_filters(steps);
    let mut i: usize = 0;
    assert(all.take(0) =~= Seq::<WhereConditionView>::empty());
    assert(first + remaining_conditions(all.take(0), steps) =~= first);
    while i < query.where_conditions.len()
        invariant
            i <= query.where_conditions@.len(),
            all == text::views(query.where_conditions@),
            steps == text::views(query.pattern.steps@),
            steps[0] == PatternStepView::Node(start@),
            query::conditions_on(found@) == first + remaining_conditions(
                all.take(i as int),
                steps,
            ),
        decreases query.where_conditions.len() - i,
    {
        assert(all.take(i + 1).drop_last() =~= all.take(i as int));
        assert(all.take(i + 1).last() == query.where_conditions@[i as int]@);
        if let WhereCondition::Property(a, filter) = &query.where_conditions[i] {
            if *a == start.alias || names_edge_exec(&query.pattern.steps, a)
                || names_unlabelled_exec(&query.pattern.steps, a) {
                let entry = (a.clone(), filter.duplicate());
                proof {
                    lemma_conditions_on_push(found@, entry);
                    let rest = remaining_conditions(all.take(i as int), steps);
                    assert((first + rest).push((entry.0@, entry.1@)) =~= first + rest.push(
                        (entry.0@, entry.1@),
                    ));
                }
                found.push(entry);
            }
        }
        i = i + 1;
    }
    assert(all.take(all.len() as int) =~= all);
    found
}

/// Turns a validated query into a plan.
pub trait Planner {
    fn plan(&self, query: &Query) -> (r: QueryPlan)
        requires
            plannable(query@),
        ensures
            r@ == plan_of(query@),
    ;
}

/// Plans the steps of a query in the order of its pattern.
#[derive(Clone, Copy, Debug)]
pub struct NaivePlanner;

impl Planner for NaivePlanner {
    fn plan(&self, query: &Query) -> (r: QueryPlan) {
        let steps = &query.pattern.steps;
        let ghost all = query@.pattern.steps;
        let ghost conditions = query@.where_conditions;
        let mut planned: Vec<PlanStep> = Vec::new();
        assert(all[0] == steps@[0]@);
        let first = node_of(&steps[0]).unwrap();
        let mut from = first;
        let start = resolve_start_or_all_step(from);
        planned.push(start);
        assert(text::views(planned@) =~= seq![start@]);
        let mut i: usize = 1;
        let ghost mut done: nat = 0;
        assert(seq![start@] + hop_steps(all, conditions, 0) =~= seq![start@]);
        while i < steps.len()
            invariant
                1 <= i <= steps@.len(),
                all == text::views(steps@),
                all == query@.pattern.steps,
                conditions == text::views(query.where_conditions@),
                dsl::alternates(all),
                i == 2 * done + 1,
                all[2 * done as int] == PatternStepView::Node(from@),
                text::views(planned@) == seq![start@] + hop_steps(all, conditions, done),
            decreases steps.len() - i,
        {
            assert(all[i as int] == steps@[i as int]@);
            assert(all[i as int] is Edge);
            assert(i + 1 < steps.len());
            assert(all[i + 1] == steps@[i + 1]@);
            assert(all[i + 1] is Node);
            let edge = edge_of(&steps[i]).unwrap();
            let to = node_of(&steps[i + 1]).unwrap();
            let step = expand_step(&from.alias, edge, to, &query.where_conditions);
            proof {
                text::lemma_views_push(planned@, step);
                let k = done as int;
                assert(hop_steps(all, conditions, (done + 1) as nat) == hop_steps(
                    all,
                    conditions,
                    done,
                ).push(step@));
                assert((seq![start@] + hop_steps(all, conditions, done)).push(step@) =~= seq![
                    start@,
                ] + hop_steps(all, conditions, (done + 1) as nat));
                done = done + 1;
            }
            planned.push(step);
            from = to;
            i = i + 2;
        }
        let ghost hops = seq![start@] + hop_steps(all, conditions, done);
        let mut j: usize = 0;
        assert(conditions.take(0) =~= Seq::<WhereConditionView>::empty());
        assert(hops + anti_join_steps(conditions.take(0)) =~= hops);
        while j < query.where_conditions.len()
            invariant
                j <= query.where_conditions@.len(),
                plannable(query@),
                conditions == text::views(query.where_conditions@),
                conditions == query@.where_conditions,
                text::views(planned@) == hops + anti_join_steps(conditions.take(j as int)),
            decreases query.where_conditions.len() - j,
        {
            assert(conditions.take(j + 1).drop_last() =~= conditions.take(j as int));
            assert(conditions.take(j + 1).last() == query.where_conditions@[j as int]@);
            if let WhereCondition::NotExists(sub) = &query.where_conditions[j] {
                proof {
                    dsl::lemma_not_exists_view(*sub);
                    assert(condition_plannable(conditions[j as int]));
                }
                let step = PlanStep::AntiJoin(compile_anti_join(sub));
                proof {
                    text::lemma_views_push(planned@, step);
                    assert((hops + anti_join_steps(conditions.take(j as int))).push(step@) =~= hops
                        + anti_join_steps(conditions.take(j as int)).push(step@));
                }
                planned.push(step);
            }
            j = j + 1;
        }
        assert(conditions.take(conditions.len() as int) =~= conditions);
        QueryPlan {
            steps: planned,
            remaining: remaining(query, first),
            project: text::duplicate_all(&query.returns),
        }
    }
}

/// A valid query that was read from text can be planned, unless its start has
/// no label, more than one filter, or a filter for a number with a fraction.
pub proof fn law_valid_queries_can_be_planned(source: Seq<char>, q: QueryView, s: SchemaView)
    requires
        dsl::parser::query_of(source) == Ok::<QueryView, (int, Seq<char>)>(q),
        validator::query_errors(q, s).len() == 0,
        (q.pattern.steps[0]->Node_0).label is Some,
        (q.pattern.steps[0]->Node_0).property_filters.len() <= 1,
        (q.pattern.steps[0]->Node_0).property_filters.len() == 1 ==> keyable(
            (q.pattern.steps[0]->Node_0).property_filters[0].value,
        ),
    ensures
        plannable(q),
{
    dsl::laws::law_read_queries_alternate(source);
    dsl::laws::law_read_patterns_ask_for_equality(source);
    assert(q.pattern.steps[0] is Node);
    assert forall|i: int| 0 <= i < q.where_conditions.len() implies condition_plannable(
        #[trigger] q.where_conditions[i],
    ) by {
        dsl::laws::law_valid_queries_correlate_not_exists(q, s, i);
    }
}

proof fn lemma_hop_steps(
    steps: Seq<PatternStepView>,
    conditions: Seq<WhereConditionView>,
    i: nat,
    k: int,
)
    requires
        0 <= k < i,
    ensures
        hop_steps(steps, conditions, i).len() == i,
        hop_steps(steps, conditions, i)[k] == hop_step(
            (steps[2 * k]->Node_0).alias,
            steps[2 * k + 1]->Edge_0,
            steps[2 * k + 2]->Node_0,
            conditions,
        ),
    decreases i,
{
    reveal_with_fuel(hop_steps, 2);
    if k < i - 1 {
        lemma_hop_steps(steps, conditions, (i - 1) as nat, k);
    } else if i > 1 {
        lemma_hop_steps(steps, conditions, (i - 1) as nat, 0);
    }
}

/// Every check of a plan is that of a `NOT EXISTS` of the query.
pub proof fn lemma_anti_join_steps(conditions: Seq<WhereConditionView>, j: int) -> (i: int)
    requires
        0 <= j < anti_join_steps(conditions).len(),
    ensures
        0 <= i < conditions.len(),
        conditions[i] matches WhereConditionView::NotExists(sub) && anti_join_steps(conditions)[j]
            == PlanStepView::AntiJoin(anti_join_step(sub)),
    decreases conditions.len(),
{
    let rest = anti_join_steps(conditions.drop_last());
    if j < rest.len() {
        let i = lemma_anti_join_steps(conditions.drop_last(), j);
        assert(conditions[i] == conditions.drop_last()[i]);
        i
    } else {
        conditions.len() - 1
    }
}

/// The steps of a plan, one by one.
pub proof fn lemma_plan_steps(q: QueryView, k: int)
    requires
        plannable(q),
        0 <= k < plan_of(q).steps.len(),
    ensures
        ({
            let steps = q.pattern.steps;
            let edges = (steps.len() - 1) / 2;
            &&& plan_of(q).steps.len() == 1 + edges + anti_join_steps(q.where_conditions).len()
            &&& k == 0 ==> plan_of(q).steps[k] == start_step(steps[0]->Node_0)
            &&& 1 <= k <= edges ==> plan_of(q).steps[k] == hop_step(
                (steps[2 * k - 2]->Node_0).alias,
                steps[2 * k - 1]->Edge_0,
                steps[2 * k]->Node_0,
                q.where_conditions,
            )
            &&& k > edges ==> plan_of(q).steps[k] == anti_join_steps(q.where_conditions)[k - 1
                - edges]
        }),
{
    let steps = q.pattern.steps;
    let edges = ((steps.len() - 1) / 2) as nat;
    let hops = hop_steps(steps, q.where_conditions, edges);
    if edges > 0 {
        lemma_hop_steps(steps, q.where_conditions, edges, 0);
    }
    if 1 <= k <= edges {
        lemma_hop_steps(steps, q.where_conditions, edges, k - 1);
        assert(plan_of(q).steps[k] == hops[k - 1]);
    }
}

/// A plan starts by resolving its first node, then walks from node to node in
/// the order of the pattern, and checks what must not exist at the end.
pub proof fn law_plans_walk_in_a_chain(q: QueryView, k: int)
    requires
        plannable(q),
        0 <= k < plan_of(q).steps.len(),
    ensures
        ({
            let steps = q.pattern.steps;
            let edges = (steps.len() - 1) / 2;
            let step = plan_of(q).steps[k];
            &&& k == 0 ==> (step is ResolveStart || step is ResolveAll)
            &&& 1 <= k <= edges ==> (step matches PlanStepView::ExpandHop(hop) && hop.from_alias
                == (steps[2 * k - 2]->Node_0).alias && hop.to_alias == (
            steps[2 * k]->Node_0).alias && hop.direction == (
            steps[2 * k - 1]->Edge_0).direction && hop.hops == (steps[2 * k - 1]->Edge_0).hops)
            &&& k > edges ==> step is AntiJoin
        }),
{
    let steps = q.pattern.steps;
    let edges = ((steps.len() - 1) / 2) as nat;
    let hops = hop_steps(steps, q.where_conditions, edges);
    let start = seq![start_step(steps[0]->Node_0)];
    if edges > 0 {
        lemma_hop_steps(steps, q.where_conditions, edges, 0);
    }
    if 1 <= k <= edges {
        lemma_hop_steps(steps, q.where_conditions, edges, k - 1);
        assert(plan_of(q).steps[k] == hops[k - 1]);
    } else if k > edges {
        let j = k - 1 - edges;
        assert(plan_of(q).steps[k] == anti_join_steps(q.where_conditions)[j]);
        let i = lemma_anti_join_steps(q.where_conditions, j);
    }
}

proof fn lemma_filters_on(
    conditions: Seq<WhereConditionView>,
    alias: Seq<char>,
    filter: PropertyFilterView,
    i: int,
)
    requires
        0 <= i < conditions.len(),
        conditions[i] == WhereConditionView::Property(alias, filter),
    ensures
        filters_on(conditions, alias).contains(filter),
    decreases conditions.len(),
{
    let shorter = conditions.drop_last();
    let rest = filters_on(shorter, alias);
    let all = filters_on(conditions, alias);
    if i < shorter.len() {
        assert(shorter[i] == conditions[i]);
        lemma_filters_on(shorter, alias, filter, i);
        let j = choose|j: int| 0 <= j < rest.len() && rest[j] == filter;
        assert(all[j] == filter);
    } else {
        assert(all[rest.len() as int] == filter);
    }
}

proof fn lemma_remaining(
    conditions: Seq<WhereConditionView>,
    steps: Seq<PatternStepView>,
    alias: Seq<char>,
    filter: PropertyFilterView,
    i: int,
)
    requires
        0 <= i < conditions.len(),
        conditions[i] == WhereConditionView::Property(alias, filter),
        checked_at_the_end(steps, alias),
    ensures
        remaining_conditions(conditions, steps).contains((alias, filter)),
    decreases conditions.len(),
{
    let shorter = conditions.drop_last();
    let rest = remaining_conditions(shorter, steps);
    let all = remaining_conditions(conditions, steps);
    if i < shorter.len() {
        assert(shorter[i] == conditions[i]);
        lemma_remaining(shorter, steps, alias, filter, i);
        let j = choose|j: int| 0 <= j < rest.len() && rest[j] == (alias, filter);
        assert(all[j] == (alias, filter));
    } else {
        assert(all[rest.len() as int] == (alias, filter));
    }
}

/// A condition that compares a property with a literal is enforced: one on
/// the start, on an edge or on a later node without a label remains to be
/// checked of each row, and one on a later node that has a label is a filter
/// of the hop that leads to it.
pub proof fn law_conditions_are_enforced(
    q: QueryView,
    i: int,
    alias: Seq<char>,
    filter: PropertyFilterView,
    k: int,
)
    requires
        plannable(q),
        0 <= i < q.where_conditions.len(),
        q.where_conditions[i] == WhereConditionView::Property(alias, filter),
    ensures
        checked_at_the_end(q.pattern.steps, alias) ==> plan_of(q).remaining.contains(
            (alias, filter),
        ),
        1 <= k <= (q.pattern.steps.len() - 1) / 2 && (q.pattern.steps[2 * k]->Node_0).alias
            == alias && (q.pattern.steps[2 * k]->Node_0).label is Some ==> (plan_of(
            q,
        ).steps[k] matches PlanStepView::ExpandHop(hop) && hop.filters.contains(filter)),
        validator::binds_node(q.pattern.steps, alias) ==> checked_at_the_end(
            q.pattern.steps,
            alias,
        ) || exists|j: int|
            1 <= j <= (q.pattern.steps.len() - 1) / 2 && (
            #[trigger] plan_of(q).steps[j] matches PlanStepView::ExpandHop(hop) && hop.to_alias
                == alias && hop.filters.contains(filter)),
{
    let steps = q.pattern.steps;
    let conditions = q.where_conditions;
    if checked_at_the_end(steps, alias) {
        lemma_remaining(conditions, steps, alias, filter, i);
        let rest = remaining_conditions(conditions, steps);
        let all = remaining_of(q);
        let j = choose|j: int| 0 <= j < rest.len() && rest[j] == (alias, filter);
        assert(all[all.len() - rest.len() + j] == (alias, filter));
    }
    let edges = (steps.len() - 1) / 2;
    if 1 <= k <= edges && (steps[2 * k]->Node_0).alias == alias && (
    steps[2 * k]->Node_0).label is Some {
        lemma_hop_enforces(q, i, alias, filter, k);
    }
    if validator::binds_node(steps, alias) && !checked_at_the_end(steps, alias) {
        let j = choose|j: int|
            0 <= j < steps.len() && (#[trigger] steps[j] matches PatternStepView::Node(n)
                && n.alias == alias);
        assert(j % 2 == 0 && j > 0);
        assert(2 * (j / 2) == j);
        lemma_hop_enforces(q, i, alias, filter, j / 2);
        assert(plan_of(q).steps[j / 2] is ExpandHop);
    }
}

/// The hop that leads to a labelled node has the conditions on it as filters.
proof fn lemma_hop_enforces(
    q: QueryView,
    i: int,
    alias: Seq<char>,
    filter: PropertyFilterView,
    k: int,
)
    requires
        plannable(q),
        0 <= i < q.where_conditions.len(),
        q.where_conditions[i] == WhereConditionView::Property(alias, filter),
        1 <= k <= (q.pattern.steps.len() - 1) / 2,
        (q.pattern.steps[2 * k]->Node_0).alias == alias,
        (q.pattern.steps[2 * k]->Node_0).label is Some,
    ensures
        plan_of(q).steps[k] matches PlanStepView::ExpandHop(hop) && hop.to_alias == alias
            && hop.filters.contains(filter),
{
    let steps = q.pattern.steps;
    let conditions = q.where_conditions;
    let edges = ((steps.len() - 1) / 2) as nat;
    lemma_filters_on(conditions, alias, filter, i);
    lemma_hop_steps(steps, conditions, edges, k - 1);
    let hops = hop_steps(steps, conditions, edges);
    assert(plan_of(q).steps[k] == hops[k - 1]);
    let own = (steps[2 * k]->Node_0).property_filters;
    let more = filters_on(conditions, alias);
    let j = choose|j: int| 0 <= j < more.len() && more[j] == filter;
    assert((own + more)[own.len() + j] == filter);
}

/// What a step leaves remains to be checked.
proof fn lemma_remaining_filters(
    steps: Seq<PatternStepView>,
    i: int,
    entry: (Seq<char>, PropertyFilterView),
)
    requires
        1 <= i < steps.len(),
        left_filters(steps[i]).contains(entry),
    ensures
        remaining_filters(steps).contains(entry),
    decreases steps.len(),
{
    let shorter = steps.drop_last();
    let rest = remaining_filters(shorter);
    let last = left_filters(steps.last());
    if i < shorter.len() {
        assert(shorter[i] == steps[i]);
        lemma_remaining_filters(shorter, i, entry);
        let j = choose|j: int| 0 <= j < rest.len() && rest[j] == entry;
        assert((rest + last)[j] == entry);
    } else {
        let j = choose|j: int| 0 <= j < last.len() && last[j] == entry;
        assert((rest + last)[rest.len() + j] == entry);
    }
}

/// A filter that a pattern gives with a node is enforced: that of the start
/// finds it, those of a later node that has a label are filters of the hop
/// that leads to it, and those of a later node without a label remain to be
/// checked of each row.
pub proof fn law_filters_are_enforced(q: QueryView, k: int, i: int)
    requires
        plannable(q),
        0 <= k <= (q.pattern.steps.len() - 1) / 2,
        0 <= i < (q.pattern.steps[2 * k]->Node_0).property_filters.len(),
    ensures
        ({
            let node = q.pattern.steps[2 * k]->Node_0;
            let filter = node.property_filters[i];
            if k == 0 {
                plan_of(q).steps[0] == PlanStepView::ResolveStart {
                    alias: node.alias,
                    label_or_type: node.label->Some_0,
                    property: filter.property,
                    key: literal_key(filter.value),
                }
            } else if node.label is Some {
                plan_of(q).steps[k] matches PlanStepView::ExpandHop(hop) && hop.to_alias
                    == node.alias && hop.filters.contains(filter)
            } else {
                plan_of(q).remaining.contains((node.alias, filter))
            }
        }),
{
    let steps = q.pattern.steps;
    let node = steps[2 * k]->Node_0;
    let filter = node.property_filters[i];
    let edges = ((steps.len() - 1) / 2) as nat;
    lemma_plan_steps(q, 0);
    if k > 0 && node.label is Some {
        lemma_hop_steps(steps, q.where_conditions, edges, k - 1);
        let hops = hop_steps(steps, q.where_conditions, edges);
        assert(plan_of(q).steps[k] == hops[k - 1]);
        let more = filters_on(q.where_conditions, node.alias);
        assert((node.property_filters + more)[i] == filter);
    } else if k > 0 {
        let entry = (node.alias, filter);
        assert(steps[2 * k] is Node);
        assert(left_filters(steps[2 * k])[i] == entry);
        lemma_remaining_filters(steps, 2 * k, entry);
        let rest = remaining_filters(steps);
        let j = choose|j: int| 0 <= j < rest.len() && rest[j] == entry;
        assert(plan_of(q).remaining[j] == entry);
    }
}

/// A condition on a property of what a pattern binds is not lost: a query with
/// one more has another plan.
pub proof fn law_a_condition_changes_the_plan(
    q: QueryView,
    more: QueryView,
    alias: Seq<char>,
    filter: PropertyFilterView,
)
    requires
        plannable(q),
        more.pattern == q.pattern,
        more.where_conditions == q.where_conditions.push(
            WhereConditionView::Property(alias, filter),
        ),
        validator::binds_node(q.pattern.steps, alias) || names_edge(q.pattern.steps, alias),
    ensures
        plannable(more),
        plan_of(more) != plan_of(q),
{
    let steps = q.pattern.steps;
    let conditions = more.where_conditions;
    assert(conditions.drop_last() =~= q.where_conditions);
    assert forall|i: int| 0 <= i < conditions.len() implies condition_plannable(
        #[trigger] conditions[i],
    ) by {
        if i < q.where_conditions.len() {
            assert(conditions[i] == q.where_conditions[i]);
        }
    }
    if checked_at_the_end(steps, alias) {
        assert(plan_of(more).remaining.len() == plan_of(q).remaining.len() + 1);
    } else {
        let j = choose|j: int|
            0 <= j < steps.len() && (#[trigger] steps[j] matches PatternStepView::Node(n)
                && n.alias == alias);
        let k = j / 2;
        let edges = ((steps.len() - 1) / 2) as nat;
        assert(j % 2 == 0 && j > 0);
        assert(2 * k == j);
        lemma_hop_steps(steps, q.where_conditions, edges, k - 1);
        lemma_hop_steps(steps, conditions, edges, k - 1);
        let before = plan_of(q).steps[k];
        let after = plan_of(more).steps[k];
        assert(before == hop_steps(steps, q.where_conditions, edges)[k - 1]);
        assert(after == hop_steps(steps, conditions, edges)[k - 1]);
        assert((after->ExpandHop_0).filters.len() == (before->ExpandHop_0).filters.len() + 1);
    }
}

} // verus!
