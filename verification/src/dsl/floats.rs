//! Numbers with a fraction. A query is read with the texts of such numbers;
//! the doubles that they stand for are put in later.
use crate::dsl;
use crate::dsl::{
    EdgePattern, ExistsSubquery, ExistsSubqueryView, Literal, LiteralView, NodePattern,
    NodePatternView, Pattern, PatternStep, PatternStepView, PatternView, PropertyFilter,
    PropertyFilterView, Query, QueryView, WhereCondition, WhereConditionView,
};
use crate::maps::NamedMap;
use crate::schema::{EdgeType, Label};
use crate::text;
use crate::text::Duplicate;
use vstd::prelude::*;

verus! {

/// A literal, with the double of its text where one is given.
pub open spec fn bound_literal(l: LiteralView, doubles: Map<Seq<char>, u64>) -> LiteralView {
    match l {
        LiteralView::FloatText(t) => if doubles.dom().contains(t) {
            LiteralView::Float64(doubles[t])
        } else {
            l
        },
        _ => l,
    }
}

pub open spec fn bound_filter(f: PropertyFilterView, doubles: Map<Seq<char>, u64>) -> PropertyFilterView {
    PropertyFilterView { property: f.property, op: f.op, value: bound_literal(f.value, doubles) }
}

pub open spec fn bound_filters(fs: Seq<PropertyFilterView>, doubles: Map<Seq<char>, u64>) -> Seq<
    PropertyFilterView,
> {
    Seq::new(fs.len(), |i: int| bound_filter(fs[i], doubles))
}

pub open spec fn bound_step(s: PatternStepView, doubles: Map<Seq<char>, u64>) -> PatternStepView {
    match s {
        PatternStepView::Node(n) => PatternStepView::Node(
            NodePatternView {
                alias: n.alias,
                label: n.label,
                property_filters: bound_filters(n.property_filters, doubles),
            },
        ),
        PatternStepView::Edge(_) => s,
    }
}

pub open spec fn bound_steps(steps: Seq<PatternStepView>, doubles: Map<Seq<char>, u64>) -> Seq<
    PatternStepView,
> {
    Seq::new(steps.len(), |i: int| bound_step(steps[i], doubles))
}

pub open spec fn bound_condition(
    c: WhereConditionView,
    doubles: Map<Seq<char>, u64>,
) -> WhereConditionView
    decreases c,
{
    match c {
        WhereConditionView::Property(alias, filter) => WhereConditionView::Property(
            alias,
            bound_filter(filter, doubles),
        ),
        WhereConditionView::NotExists(sub) => WhereConditionView::NotExists(
            ExistsSubqueryView {
                pattern: PatternView { steps: bound_steps(sub.pattern.steps, doubles) },
                where_conditions: Seq::new(
                    sub.where_conditions.len(),
                    |i: int|
                        if 0 <= i < sub.where_conditions.len() {
                            bound_condition(sub.where_conditions[i], doubles)
                        } else {
                            arbitrary()
                        },
                ),
            },
        ),
        _ => c,
    }
}

pub open spec fn bound_conditions(
    cs: Seq<WhereConditionView>,
    doubles: Map<Seq<char>, u64>,
) -> Seq<WhereConditionView> {
    Seq::new(cs.len(), |i: int| bound_condition(cs[i], doubles))
}

/// A query with the doubles of its texts.
pub open spec fn bound_query(q: QueryView, doubles: Map<Seq<char>, u64>) -> QueryView {
    QueryView {
        pattern: PatternView { steps: bound_steps(q.pattern.steps, doubles) },
        where_conditions: bound_conditions(q.where_conditions, doubles),
        returns: q.returns,
        order_by: q.order_by,
        limit: q.limit,
    }
}

/// Whether a text is that of a number in some filter.
pub open spec fn in_filters(fs: Seq<PropertyFilterView>, t: Seq<char>) -> bool {
    exists|i: int| 0 <= i < fs.len() && (#[trigger] fs[i]).value == LiteralView::FloatText(t)
}

pub open spec fn in_step(s: PatternStepView, t: Seq<char>) -> bool {
    s matches PatternStepView::Node(n) && in_filters(n.property_filters, t)
}

pub open spec fn in_steps(steps: Seq<PatternStepView>, t: Seq<char>) -> bool {
    exists|i: int| 0 <= i < steps.len() && in_step(#[trigger] steps[i], t)
}

pub open spec fn in_condition(c: WhereConditionView, t: Seq<char>) -> bool
    decreases c,
{
    match c {
        WhereConditionView::Property(_, filter) => filter.value == LiteralView::FloatText(t),
        WhereConditionView::NotExists(sub) => in_steps(sub.pattern.steps, t) || in_conditions(
            sub.where_conditions,
            t,
        ),
        _ => false,
    }
}

pub open spec fn in_conditions(cs: Seq<WhereConditionView>, t: Seq<char>) -> bool
    decreases cs,
{
    cs.len() > 0 && (in_conditions(cs.drop_last(), t) || in_condition(cs.last(), t))
}

/// Whether a text is that of a number in a query.
pub open spec fn in_query(q: QueryView, t: Seq<char>) -> bool {
    in_steps(q.pattern.steps, t) || in_conditions(q.where_conditions, t)
}

fn bind_literal(l: &Literal, doubles: &NamedMap<u64>) -> (r: Literal)
    ensures
        r@ == bound_literal(l@, doubles@),
{
    match l {
        Literal::FloatText(t) => match doubles.get(t.as_str()) {
            Some(bits) => Literal::Float64(*bits),
            None => l.duplicate(),
        },
        _ => l.duplicate(),
    }
}

fn bind_filter(f: &PropertyFilter, doubles: &NamedMap<u64>) -> (r: PropertyFilter)
    ensures
        r@ == bound_filter(f@, doubles@),
{
    PropertyFilter {
        property: f.property.clone(),
        op: f.op,
        value: bind_literal(&f.value, doubles),
    }
}

fn bind_steps(steps: &Vec<PatternStep>, doubles: &NamedMap<u64>) -> (r: Vec<PatternStep>)
    ensures
        text::views(r@) == bound_steps(text::views(steps@), doubles@),
{
    let mut out: Vec<PatternStep> = Vec::new();
    let mut i: usize = 0;
    while i < steps.len()
        invariant
            i <= steps@.len(),
            out@.len() == i,
            forall|k: int| 0 <= k < i ==> (#[trigger] out@[k])@ == bound_step(steps@[k]@, doubles@),
        decreases steps.len() - i,
    {
        let step = match &steps[i] {
            PatternStep::Node(n) => {
                let mut filters: Vec<PropertyFilter> = Vec::new();
                let mut j: usize = 0;
                while j < n.property_filters.len()
                    invariant
                        j <= n.property_filters@.len(),
                        filters@.len() == j,
                        forall|k: int|
                            0 <= k < j ==> (#[trigger] filters@[k])@ == bound_filter(
                                n.property_filters@[k]@,
                                doubles@,
                            ),
                    decreases n.property_filters.len() - j,
                {
                    filters.push(bind_filter(&n.property_filters[j], doubles));
                    j = j + 1;
                }
                assert(text::views(filters@) =~= bound_filters(
                    text::views(n.property_filters@),
                    doubles@,
                ));
                let label = match &n.label {
                    Some(l) => Some(Label(l.0.clone())),
                    None => None,
                };
                PatternStep::Node(
                    NodePattern { alias: n.alias.clone(), label, property_filters: filters },
                )
            },
            PatternStep::Edge(e) => {
                let edge_type = match &e.edge_type {
                    Some(t) => Some(EdgeType(t.0.clone())),
                    None => None,
                };
                PatternStep::Edge(
                    EdgePattern {
                        alias: text::duplicate_option(&e.alias),
                        edge_type,
                        direction: e.direction,
                        hops: e.hops,
                    },
                )
            },
        };
        assert(step@ == bound_step(steps@[i as int]@, doubles@));
        out.push(step);
        i = i + 1;
    }
    assert(text::views(out@) =~= bound_steps(text::views(steps@), doubles@));
    out
}

fn bind_conditions(conditions: &Vec<WhereCondition>, doubles: &NamedMap<u64>) -> (r: Vec<
    WhereCondition,
>)
    ensures
        text::views(r@) == bound_conditions(text::views(conditions@), doubles@),
    decreases conditions,
{
    let mut out: Vec<WhereCondition> = Vec::new();
    let mut i: usize = 0;
    while i < conditions.len()
        invariant
            i <= conditions@.len(),
            out@.len() == i,
            forall|k: int|
                0 <= k < i ==> (#[trigger] out@[k])@ == bound_condition(
                    conditions@[k]@,
                    doubles@,
                ),
        decreases conditions.len() - i,
    {
        assert(decreases_to!(conditions => conditions@[i as int]));
        let c = match &conditions[i] {
            WhereCondition::Property(alias, filter) => WhereCondition::Property(
                alias.clone(),
                bind_filter(filter, doubles),
            ),
            WhereCondition::AliasComparison { left, op, right } =>
                WhereCondition::AliasComparison {
                    left: left.clone(),
                    op: *op,
                    right: right.clone(),
                },
            WhereCondition::PropertyComparison { left, op, right } =>
                WhereCondition::PropertyComparison {
                    left: left.duplicate(),
                    op: *op,
                    right: right.duplicate(),
                },
            WhereCondition::NotExists(sub) => {
                assert(decreases_to!(conditions => sub.where_conditions));
                let pattern = Pattern { steps: bind_steps(&sub.pattern.steps, doubles) };
                let where_conditions = bind_conditions(&sub.where_conditions, doubles);
                let bound = ExistsSubquery { pattern, where_conditions };
                proof {
                    dsl::lemma_not_exists_view(*sub);
                    dsl::lemma_not_exists_view(bound);
                    let c = WhereConditionView::NotExists(sub@);
                    assert(bound_condition(c, doubles@)->NotExists_0.where_conditions
                        =~= bound@.where_conditions);
                }
                WhereCondition::NotExists(bound)
            },
        };
        out.push(c);
        i = i + 1;
    }
    assert(text::views(out@) =~= bound_conditions(text::views(conditions@), doubles@));
    out
}

/// Puts doubles into a query, each for the text that it has in `doubles`.
/// Doubles are bit patterns.
pub fn bind_floats(query: Query, doubles: &NamedMap<u64>) -> (r: Query)
    ensures
        r@ == bound_query(query@, doubles@),
{
    let Query { pattern, where_conditions, returns: items, order_by, limit } = query;
    Query {
        pattern: Pattern { steps: bind_steps(&pattern.steps, doubles) },
        where_conditions: bind_conditions(&where_conditions, doubles),
        returns: items,
        order_by,
        limit,
    }
}

proof fn lemma_views_contains_push(items: Seq<String>, x: String)
    ensures
        forall|t: Seq<char>| #[trigger]
            text::views(items.push(x)).contains(t) <==> text::views(items).contains(t) || t == x@,
{
    text::lemma_views_push(items, x);
    let all = text::views(items);
    assert forall|t: Seq<char>| #[trigger]
        text::views(items.push(x)).contains(t) <==> all.contains(t) || t == x@ by {
        if all.contains(t) {
            let i = choose|i: int| 0 <= i < all.len() && all[i] == t;
            assert(all.push(x@)[i] == t);
        }
        assert(all.push(x@)[all.len() as int] == x@);
    }
}

fn collect_filter(f: &PropertyFilter, out: &mut Vec<String>)
    ensures
        forall|t: Seq<char>| #[trigger]
            text::views(final(out)@).contains(t) <==> text::views(old(out)@).contains(t)
                || f@.value == LiteralView::FloatText(t),
{
    match &f.value {
        Literal::FloatText(t) => {
            proof {
                lemma_views_contains_push(out@, *t);
            }
            out.push(t.clone());
        },
        _ => {},
    }
}

fn collect_steps(steps: &Vec<PatternStep>, out: &mut Vec<String>)
    ensures
        forall|t: Seq<char>| #[trigger]
            text::views(final(out)@).contains(t) <==> text::views(old(out)@).contains(t)
                || in_steps(text::views(steps@), t),
{
    let ghost before = text::views(out@);
    let ghost all = text::views(steps@);
    let mut i: usize = 0;
    while i < steps.len()
        invariant
            i <= steps@.len(),
            all == text::views(steps@),
            forall|t: Seq<char>| #[trigger]
                text::views(out@).contains(t) <==> before.contains(t) || in_steps(
                    all.take(i as int),
                    t,
                ),
        decreases steps.len() - i,
    {
        let ghost earlier = text::views(out@);
        match &steps[i] {
            PatternStep::Node(n) => {
                let ghost filters = text::views(n.property_filters@);
                let mut j: usize = 0;
                while j < n.property_filters.len()
                    invariant
                        j <= n.property_filters@.len(),
                        filters == text::views(n.property_filters@),
                        forall|t: Seq<char>| #[trigger]
                            text::views(out@).contains(t) <==> earlier.contains(t) || in_filters(
                                filters.take(j as int),
                                t,
                            ),
                    decreases n.property_filters.len() - j,
                {
                    collect_filter(&n.property_filters[j], out);
                    proof {
                        assert(filters.take(j + 1) =~= filters.take(j as int).push(
                            filters[j as int],
                        ));
                        lemma_in_filters_push(filters.take(j as int), filters[j as int]);
                    }
                    j = j + 1;
                }
                assert(filters.take(filters.len() as int) =~= filters);
                assert(forall|t: Seq<char>| #[trigger]
                    text::views(out@).contains(t) <==> earlier.contains(t) || in_step(
                        all[i as int],
                        t,
                    ));
            },
            PatternStep::Edge(_) => {
                assert(forall|t: Seq<char>| #[trigger]
                    text::views(out@).contains(t) <==> earlier.contains(t) || in_step(
                        all[i as int],
                        t,
                    ));
            },
        }
        proof {
            assert(all.take(i + 1) =~= all.take(i as int).push(all[i as int]));
            lemma_in_steps_push(all.take(i as int), all[i as int]);
        }
        i = i + 1;
    }
    assert(all.take(all.len() as int) =~= all);
}

proof fn lemma_in_filters_push(fs: Seq<PropertyFilterView>, f: PropertyFilterView)
    ensures
        forall|t: Seq<char>| #[trigger]
            in_filters(fs.push(f), t) <==> in_filters(fs, t) || f.value == LiteralView::FloatText(
                t,
            ),
{
    assert forall|t: Seq<char>| #[trigger]
        in_filters(fs.push(f), t) <==> in_filters(fs, t) || f.value == LiteralView::FloatText(t) by {
        if in_filters(fs, t) {
            let i = choose|i: int|
                0 <= i < fs.len() && (#[trigger] fs[i]).value == LiteralView::FloatText(t);
            assert(fs.push(f)[i].value == LiteralView::FloatText(t));
        }
        if in_filters(fs.push(f), t) {
            let i = choose|i: int|
                0 <= i < fs.push(f).len() && (#[trigger] fs.push(f)[i]).value
                    == LiteralView::FloatText(t);
            if i < fs.len() {
                assert(fs[i].value == LiteralView::FloatText(t));
            }
        }
        assert(fs.push(f)[fs.len() as int] == f);
    }
}

proof fn lemma_in_steps_push(steps: Seq<PatternStepView>, s: PatternStepView)
    ensures
        forall|t: Seq<char>| #[trigger]
            in_steps(steps.push(s), t) <==> in_steps(steps, t) || in_step(s, t),
{
    assert forall|t: Seq<char>| #[trigger]
        in_steps(steps.push(s), t) <==> in_steps(steps, t) || in_step(s, t) by {
        if in_steps(steps, t) {
            let i = choose|i: int| 0 <= i < steps.len() && in_step(#[trigger] steps[i], t);
            assert(in_step(steps.push(s)[i], t));
        }
        if in_steps(steps.push(s), t) {
            let i = choose|i: int|
                0 <= i < steps.push(s).len() && in_step(#[trigger] steps.push(s)[i], t);
            if i < steps.len() {
                assert(in_step(steps[i], t));
            }
        }
        assert(steps.push(s)[steps.len() as int] == s);
    }
}

fn collect_conditions(conditions: &Vec<WhereCondition>, out: &mut Vec<String>)
    ensures
        forall|t: Seq<char>| #[trigger]
            text::views(final(out)@).contains(t) <==> text::views(old(out)@).contains(t)
                || in_conditions(text::views(conditions@), t),
    decreases conditions,
{
    let ghost before = text::views(out@);
    let ghost all = text::views(conditions@);
    let mut i: usize = 0;
    while i < conditions.len()
        invariant
            i <= conditions@.len(),
            all == text::views(conditions@),
            forall|t: Seq<char>| #[trigger]
                text::views(out@).contains(t) <==> before.contains(t) || in_conditions(
                    all.take(i as int),
                    t,
                ),
        decreases conditions.len() - i,
    {
        let ghost earlier = text::views(out@);
        assert(decreases_to!(conditions => conditions@[i as int]));
        match &conditions[i] {
            WhereCondition::Property(_, filter) => {
                collect_filter(filter, out);
            },
            WhereCondition::NotExists(sub) => {
                assert(decreases_to!(conditions => sub.where_conditions));
                collect_steps(&sub.pattern.steps, out);
                collect_conditions(&sub.where_conditions, out);
                proof {
                    dsl::lemma_not_exists_view(*sub);
                }
            },
            _ => {},
        }
        proof {
            assert(forall|t: Seq<char>| #[trigger]
                text::views(out@).contains(t) <==> earlier.contains(t) || in_condition(
                    all[i as int],
                    t,
                ));
            assert(all.take(i + 1).drop_last() =~= all.take(i as int));
            assert(all.take(i + 1).last() == all[i as int]);
        }
        i = i + 1;
    }
    assert(all.take(all.len() as int) =~= all);
}

/// The texts of the numbers with a fraction in a query.
pub fn float_texts(query: &Query) -> (r: Vec<String>)
    ensures
        forall|t: Seq<char>| #[trigger] text::views(r@).contains(t) <==> in_query(query@, t),
{
    let mut out: Vec<String> = Vec::new();
    collect_steps(&query.pattern.steps, &mut out);
    collect_conditions(&query.where_conditions, &mut out);
    out
}

proof fn lemma_bound_steps(steps: Seq<PatternStepView>, doubles: Map<Seq<char>, u64>, t: Seq<char>)
    requires
        forall|u: Seq<char>| #[trigger] in_steps(steps, u) ==> doubles.dom().contains(u),
    ensures
        !in_steps(bound_steps(steps, doubles), t),
{
    let bound = bound_steps(steps, doubles);
    if in_steps(bound, t) {
        let i = choose|i: int| 0 <= i < bound.len() && in_step(#[trigger] bound[i], t);
        let n = steps[i]->Node_0;
        let m = bound[i]->Node_0;
        let j = choose|j: int|
            0 <= j < m.property_filters.len() && (#[trigger] m.property_filters[j]).value
                == LiteralView::FloatText(t);
        assert(n.property_filters[j].value == LiteralView::FloatText(t));
        assert(in_step(steps[i], t));
        assert(in_steps(steps, t));
    }
}

proof fn lemma_bound_condition(c: WhereConditionView, doubles: Map<Seq<char>, u64>, t: Seq<char>)
    requires
        forall|u: Seq<char>| #[trigger] in_condition(c, u) ==> doubles.dom().contains(u),
    ensures
        !in_condition(bound_condition(c, doubles), t),
    decreases c,
{
    match c {
        WhereConditionView::Property(_, filter) => {
            if filter.value is FloatText {
                assert(in_condition(c, filter.value->FloatText_0));
            }
        },
        WhereConditionView::NotExists(sub) => {
            assert forall|u: Seq<char>| #[trigger]
                in_steps(sub.pattern.steps, u) implies doubles.dom().contains(u) by {
                assert(in_condition(c, u));
            }
            lemma_bound_steps(sub.pattern.steps, doubles, t);
            assert forall|u: Seq<char>| #[trigger]
                in_conditions(sub.where_conditions, u) implies doubles.dom().contains(u) by {
                assert(in_condition(c, u));
            }
            lemma_bound_conditions(sub.where_conditions, doubles, t);
            assert(bound_condition(c, doubles)->NotExists_0.where_conditions =~= bound_conditions(
                sub.where_conditions,
                doubles,
            ));
        },
        _ => {},
    }
}

proof fn lemma_bound_conditions(
    cs: Seq<WhereConditionView>,
    doubles: Map<Seq<char>, u64>,
    t: Seq<char>,
)
    requires
        forall|u: Seq<char>| #[trigger] in_conditions(cs, u) ==> doubles.dom().contains(u),
    ensures
        !in_conditions(bound_conditions(cs, doubles), t),
    decreases cs,
{
    if cs.len() > 0 {
        let shorter = cs.drop_last();
        assert forall|u: Seq<char>| #[trigger]
            in_conditions(shorter, u) implies doubles.dom().contains(u) by {
            assert(in_conditions(cs, u));
        }
        lemma_bound_conditions(shorter, doubles, t);
        assert(bound_conditions(cs, doubles).drop_last() =~= bound_conditions(shorter, doubles));
        assert forall|u: Seq<char>| #[trigger]
            in_condition(cs.last(), u) implies doubles.dom().contains(u) by {
            assert(in_conditions(cs, u));
        }
        lemma_bound_condition(cs.last(), doubles, t);
    }
}

/// Once a query has a double for each of its texts, no text is left in it.
pub proof fn law_bound_queries_know_their_doubles(
    q: QueryView,
    doubles: Map<Seq<char>, u64>,
    t: Seq<char>,
)
    requires
        forall|u: Seq<char>| #[trigger] in_query(q, u) ==> doubles.dom().contains(u),
    ensures
        !in_query(bound_query(q, doubles), t),
{
    assert forall|u: Seq<char>| #[trigger]
        in_steps(q.pattern.steps, u) implies doubles.dom().contains(u) by {
        assert(in_query(q, u));
    }
    lemma_bound_steps(q.pattern.steps, doubles, t);
    assert forall|u: Seq<char>| #[trigger]
        in_conditions(q.where_conditions, u) implies doubles.dom().contains(u) by {
        assert(in_query(q, u));
    }
    lemma_bound_conditions(q.where_conditions, doubles, t);
}

/// That a literal stands for another one: for the double of its text where it
/// is a text that one is known of, and for itself otherwise.
pub open spec fn stands_for(
    doubles: Map<Seq<char>, u64>,
    before: LiteralView,
    after: LiteralView,
) -> bool {
    &&& forall|t: Seq<char>, bits: u64|
        before == LiteralView::FloatText(t) && #[trigger] doubles.contains_pair(t, bits)
            ==> after == LiteralView::Float64(bits)
    &&& (forall|t: Seq<char>|
        before == LiteralView::FloatText(t) ==> !(#[trigger] doubles.dom().contains(t))) ==> after
        == before
}

/// That a filter compares the same property in the same way, with what its
/// literal stands for.
pub open spec fn filter_stands_for(
    doubles: Map<Seq<char>, u64>,
    before: PropertyFilterView,
    after: PropertyFilterView,
) -> bool {
    after.property == before.property && after.op == before.op && stands_for(
        doubles,
        before.value,
        after.value,
    )
}

/// That one step follows another: an edge is the same edge, a node has the
/// same name and label and filters that stand for those it had.
pub open spec fn step_stands_for(
    doubles: Map<Seq<char>, u64>,
    before: PatternStepView,
    after: PatternStepView,
) -> bool {
    match before {
        PatternStepView::Edge(_) => after == before,
        PatternStepView::Node(n) => after matches PatternStepView::Node(m) && m.alias == n.alias
            && m.label == n.label && m.property_filters.len() == n.property_filters.len()
            && forall|k: int|
            0 <= k < n.property_filters.len() ==> filter_stands_for(
                doubles,
                n.property_filters[k],
                #[trigger] m.property_filters[k],
            ),
    }
}

proof fn lemma_literal_stands_for(l: LiteralView, doubles: Map<Seq<char>, u64>)
    ensures
        stands_for(doubles, l, bound_literal(l, doubles)),
{
    if let LiteralView::FloatText(t) = l {
        if doubles.dom().contains(t) {
            assert(doubles.contains_pair(t, doubles[t]));
        }
    }
}

proof fn lemma_step_stands_for(s: PatternStepView, doubles: Map<Seq<char>, u64>)
    ensures
        step_stands_for(doubles, s, bound_step(s, doubles)),
{
    if let PatternStepView::Node(n) = s {
        assert forall|k: int| 0 <= k < n.property_filters.len() implies filter_stands_for(
            doubles,
            n.property_filters[k],
            #[trigger] bound_filters(n.property_filters, doubles)[k],
        ) by {
            lemma_literal_stands_for(n.property_filters[k].value, doubles);
        }
    }
}

/// To give a query the doubles of its texts changes nothing else of it: the
/// same steps are asked for, each filter compares the same property in the
/// same way, and what is returned, in which order and how much of it stays.
pub proof fn law_doubles_take_the_place_of_their_texts(
    q: QueryView,
    doubles: Map<Seq<char>, u64>,
)
    ensures
        bound_query(q, doubles).returns == q.returns,
        bound_query(q, doubles).order_by == q.order_by,
        bound_query(q, doubles).limit == q.limit,
        bound_query(q, doubles).pattern.steps.len() == q.pattern.steps.len(),
        forall|i: int|
            0 <= i < q.pattern.steps.len() ==> step_stands_for(
                doubles,
                q.pattern.steps[i],
                #[trigger] bound_query(q, doubles).pattern.steps[i],
            ),
        bound_query(q, doubles).where_conditions.len() == q.where_conditions.len(),
        forall|i: int|
            0 <= i < q.where_conditions.len() ==> #[trigger] bound_query(
                q,
                doubles,
            ).where_conditions[i] == bound_condition(q.where_conditions[i], doubles),
{
    assert forall|i: int| 0 <= i < q.pattern.steps.len() implies step_stands_for(
        doubles,
        q.pattern.steps[i],
        #[trigger] bound_query(q, doubles).pattern.steps[i],
    ) by {
        lemma_step_stands_for(q.pattern.steps[i], doubles);
    }
}

/// The same holds of a condition, and of each step and each condition of a
/// subquery.
pub proof fn law_conditions_take_the_doubles_of_their_texts(
    c: WhereConditionView,
    doubles: Map<Seq<char>, u64>,
)
    ensures
        match c {
            WhereConditionView::Property(alias, f) => bound_condition(
                c,
                doubles,
            ) matches WhereConditionView::Property(a, g) && a == alias && filter_stands_for(
                doubles,
                f,
                g,
            ),
            WhereConditionView::NotExists(sub) => bound_condition(
                c,
                doubles,
            ) matches WhereConditionView::NotExists(other) && other.pattern.steps.len()
                == sub.pattern.steps.len() && (forall|i: int|
                0 <= i < sub.pattern.steps.len() ==> step_stands_for(
                    doubles,
                    sub.pattern.steps[i],
                    #[trigger] other.pattern.steps[i],
                )) && other.where_conditions.len() == sub.where_conditions.len() && (forall|i: int|
                0 <= i < sub.where_conditions.len() ==> #[trigger] other.where_conditions[i]
                    == bound_condition(sub.where_conditions[i], doubles)),
            _ => bound_condition(c, doubles) == c,
        },
{
    match c {
        WhereConditionView::Property(_, f) => {
            lemma_literal_stands_for(f.value, doubles);
        },
        WhereConditionView::NotExists(sub) => {
            assert forall|i: int| 0 <= i < sub.pattern.steps.len() implies step_stands_for(
                doubles,
                sub.pattern.steps[i],
                #[trigger] bound_steps(sub.pattern.steps, doubles)[i],
            ) by {
                lemma_step_stands_for(sub.pattern.steps[i], doubles);
            }
        },
        _ => {},
    }
}

} // verus!
