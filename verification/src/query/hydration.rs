//! Conditions on properties that are fetched for rows: which records are
//! needed, and which rows pass once they are there.
use crate::dsl::{
    ComparisonOp, Direction, Literal, LiteralView, PropertyFilter, PropertyFilterView, PropertyRef,
    PropertyRefView,
};
use crate::index::{EdgeRecord, EdgeRecordView, NodeRecord, NodeRecordView};
use crate::index::builder;
use crate::maps::IdMap;
use crate::query;
use crate::query::filter_eval;
use crate::query::routing::EdgeAt;
use crate::query::walk;
use crate::query::{
    AntiJoinStep, AntiJoinStepView, Binding, BindingView, PlanStep, PlanStepView,
};
use crate::schema::NodeId;
use crate::storage;
use crate::storage::{Properties, PropertyValue, PropertyValueView};
use crate::text;
use vstd::prelude::*;

verus! {

/// The records that were fetched for nodes and edges.
#[derive(Debug)]
pub struct Records {
    pub nodes: IdMap<NodeRecord>,
    pub edges: IdMap<EdgeRecord>,
}

pub struct RecordsView {
    pub nodes: Map<u64, NodeRecordView>,
    pub edges: Map<u64, EdgeRecordView>,
}

impl View for Records {
    type V = RecordsView;

    open spec fn view(&self) -> RecordsView {
        RecordsView {
            nodes: builder::node_record_views(self.nodes.map()),
            edges: builder::edge_record_views(self.edges.map()),
        }
    }
}

impl Records {
    pub open spec fn wf(&self) -> bool {
        self.nodes.wf() && self.edges.wf()
    }
}

/// The alias of the node that an aliased edge of a plan comes from.
pub open spec fn edge_source(steps: Seq<PlanStepView>, alias: Seq<char>) -> Option<Seq<char>>
    decreases steps.len(),
{
    if steps.len() == 0 {
        None
    } else {
        match steps[0] {
            PlanStepView::ExpandHop(hop) => if hop.edge_alias == Some(alias) {
                Some(
                    match hop.direction {
                        Direction::Outgoing => hop.from_alias,
                        Direction::Incoming => hop.to_alias,
                    },
                )
            } else {
                edge_source(steps.drop_first(), alias)
            },
            _ => edge_source(steps.drop_first(), alias),
        }
    }
}

/// The properties of what a row binds an alias to, as far as they were
/// fetched.
pub open spec fn properties_of(b: BindingView, alias: Seq<char>, records: RecordsView) -> Option<
    Map<Seq<char>, PropertyValueView>,
> {
    if b.nodes.dom().contains(alias) {
        if records.nodes.dom().contains(b.nodes[alias].0) {
            Some(records.nodes[b.nodes[alias].0].properties)
        } else {
            None
        }
    } else if b.edges.dom().contains(alias) && records.edges.dom().contains(b.edges[alias].0) {
        Some(records.edges[b.edges[alias].0].properties)
    } else {
        None
    }
}

/// Whether a row meets a condition. Where the properties could not be
/// fetched it does not.
pub open spec fn meets_condition(
    b: BindingView,
    condition: (Seq<char>, PropertyFilterView),
    records: RecordsView,
) -> bool {
    match properties_of(b, condition.0, records) {
        Some(properties) => filter_eval::passes(properties, condition.1),
        None => false,
    }
}

/// Whether a row meets all conditions.
pub open spec fn meets_all(
    b: BindingView,
    conditions: Seq<(Seq<char>, PropertyFilterView)>,
    records: RecordsView,
) -> bool {
    forall|i: int|
        0 <= i < conditions.len() ==> meets_condition(b, #[trigger] conditions[i], records)
}

/// The rows that meet all conditions, in their order.
pub open spec fn keep_meeting(
    rows: Seq<BindingView>,
    conditions: Seq<(Seq<char>, PropertyFilterView)>,
    records: RecordsView,
) -> Seq<BindingView>
    decreases rows.len(),
{
    if rows.len() == 0 {
        seq![]
    } else {
        let rest = keep_meeting(rows.drop_last(), conditions, records);
        if meets_all(rows.last(), conditions, records) {
            rest.push(rows.last())
        } else {
            rest
        }
    }
}

/// The nodes that a row binds some aliases to.
pub open spec fn nodes_bound(b: BindingView, aliases: Seq<Seq<char>>) -> Seq<NodeId>
    decreases aliases.len(),
{
    if aliases.len() == 0 {
        seq![]
    } else {
        let rest = nodes_bound(b, aliases.drop_last());
        if b.nodes.dom().contains(aliases.last()) {
            rest.push(b.nodes[aliases.last()])
        } else {
            rest
        }
    }
}

/// The nodes that rows bind some aliases to, each once.
pub open spec fn nodes_needed(rows: Seq<BindingView>, aliases: Seq<Seq<char>>) -> Seq<NodeId>
    decreases rows.len(),
{
    if rows.len() == 0 {
        seq![]
    } else {
        walk::union_new(
            nodes_needed(rows.drop_last(), aliases),
            nodes_bound(rows.last(), aliases),
        )
    }
}

/// The edges that a row binds some aliases to, with their sources.
pub open spec fn edges_bound(
    b: BindingView,
    aliases: Seq<Seq<char>>,
    steps: Seq<PlanStepView>,
) -> Seq<EdgeAt>
    decreases aliases.len(),
{
    if aliases.len() == 0 {
        seq![]
    } else {
        let rest = edges_bound(b, aliases.drop_last(), steps);
        let alias = aliases.last();
        match edge_source(steps, alias) {
            Some(source) => if !b.nodes.dom().contains(alias) && b.edges.dom().contains(alias)
                && b.nodes.dom().contains(source) {
                rest.push(EdgeAt { edge: b.edges[alias], source: b.nodes[source] })
            } else {
                rest
            },
            None => rest,
        }
    }
}

/// The edges that rows bind some aliases to, with their sources.
pub open spec fn edges_needed(
    rows: Seq<BindingView>,
    aliases: Seq<Seq<char>>,
    steps: Seq<PlanStepView>,
) -> Seq<EdgeAt>
    decreases rows.len(),
{
    if rows.len() == 0 {
        seq![]
    } else {
        edges_needed(rows.drop_last(), aliases, steps) + edges_bound(rows.last(), aliases, steps)
    }
}

/// The aliases of conditions.
pub open spec fn condition_aliases(conditions: Seq<(Seq<char>, PropertyFilterView)>) -> Seq<
    Seq<char>,
> {
    Seq::new(conditions.len(), |i: int| conditions[i].0)
}

/// The aliases that the outer conditions of a `NOT EXISTS` refer to.
pub open spec fn outer_aliases(
    conditions: Seq<(Seq<char>, ComparisonOp, PropertyRefView)>,
) -> Seq<Seq<char>> {
    Seq::new(conditions.len(), |i: int| conditions[i].2.alias)
}

/// The alias of the node that an aliased edge of a plan comes from.
pub(crate) fn find_edge_source<'a>(steps: &'a Vec<PlanStep>, alias: &String) -> (r: Option<&'a String>)
    ensures
        match r {
            Some(source) => edge_source(text::views(steps@), alias@) == Some(source@),
            None => edge_source(text::views(steps@), alias@) is None,
        },
{
    let ghost all = text::views(steps@);
    let mut i: usize = 0;
    assert(all.skip(0) =~= all);
    while i < steps.len()
        invariant
            i <= steps@.len(),
            all == text::views(steps@),
            edge_source(all, alias@) == edge_source(all.skip(i as int), alias@),
        decreases steps.len() - i,
    {
        assert(all.skip(i as int)[0] == steps@[i as int]@);
        assert(all.skip(i as int).drop_first() =~= all.skip(i + 1));
        if let PlanStep::ExpandHop { from_alias, to_alias, direction, edge_alias, .. } = &steps[i] {
            if let Some(edge_alias) = edge_alias {
                if *edge_alias == *alias {
                    return match direction {
                        Direction::Outgoing => Some(from_alias),
                        Direction::Incoming => Some(to_alias),
                    };
                }
            }
        }
        i = i + 1;
    }
    None
}

/// The nodes that rows bind some aliases to, each once.
pub(crate) fn collect_nodes(rows: &Vec<Binding>, aliases: &Vec<String>) -> (r: Vec<NodeId>)
    ensures
        r@ == nodes_needed(text::views(rows@), text::views(aliases@)),
{
    let ghost all = text::views(rows@);
    let ghost names = text::views(aliases@);
    let mut found = walk::NodeSet::new();
    let mut i: usize = 0;
    assert(all.take(0) =~= Seq::<BindingView>::empty());
    while i < rows.len()
        invariant
            i <= rows@.len(),
            all == text::views(rows@),
            names == text::views(aliases@),
            found.wf(),
            found.ids@ == nodes_needed(all.take(i as int), names),
        decreases rows.len() - i,
    {
        assert(all.take(i + 1).drop_last() =~= all.take(i as int));
        assert(all.take(i + 1).last() == rows@[i as int]@);
        let b = &rows[i];
        let mut bound: Vec<NodeId> = Vec::new();
        let mut j: usize = 0;
        assert(names.take(0) =~= Seq::<Seq<char>>::empty());
        while j < aliases.len()
            invariant
                j <= aliases@.len(),
                names == text::views(aliases@),
                bound@ == nodes_bound(b@, names.take(j as int)),
            decreases aliases.len() - j,
        {
            assert(names.take(j + 1).drop_last() =~= names.take(j as int));
            assert(names.take(j + 1).last() == aliases@[j as int]@);
            if let Some(node) = b.nodes.get(aliases[j].as_str()) {
                bound.push(*node);
            }
            j = j + 1;
        }
        assert(names.take(names.len() as int) =~= names);
        found.take_up_all(&bound);
        i = i + 1;
    }
    assert(all.take(all.len() as int) =~= all);
    found.ids
}

/// The edges that rows bind some aliases to, with their sources.
pub(crate) fn collect_edges(rows: &Vec<Binding>, aliases: &Vec<String>, steps: &Vec<PlanStep>) -> (r:
    Vec<EdgeAt>)
    ensures
        r@ == edges_needed(text::views(rows@), text::views(aliases@), text::views(steps@)),
{
    let ghost all = text::views(rows@);
    let ghost names = text::views(aliases@);
    let ghost plan = text::views(steps@);
    let mut found: Vec<EdgeAt> = Vec::new();
    let mut i: usize = 0;
    assert(all.take(0) =~= Seq::<BindingView>::empty());
    while i < rows.len()
        invariant
            i <= rows@.len(),
            all == text::views(rows@),
            names == text::views(aliases@),
            plan == text::views(steps@),
            found@ == edges_needed(all.take(i as int), names, plan),
        decreases rows.len() - i,
    {
        assert(all.take(i + 1).drop_last() =~= all.take(i as int));
        assert(all.take(i + 1).last() == rows@[i as int]@);
        let b = &rows[i];
        let ghost before = found@;
        let mut j: usize = 0;
        assert(names.take(0) =~= Seq::<Seq<char>>::empty());
        assert(before + edges_bound(b@, names.take(0), plan) =~= before);
        while j < aliases.len()
            invariant
                j <= aliases@.len(),
                names == text::views(aliases@),
                plan == text::views(steps@),
                found@ == before + edges_bound(b@, names.take(j as int), plan),
            decreases aliases.len() - j,
        {
            assert(names.take(j + 1).drop_last() =~= names.take(j as int));
            assert(names.take(j + 1).last() == aliases@[j as int]@);
            let alias = &aliases[j];
            if let Some(source) = find_edge_source(steps, alias) {
                if b.nodes.get(alias.as_str()).is_none() {
                    if let Some(edge) = b.edges.get(alias.as_str()) {
                        if let Some(node) = b.nodes.get(source.as_str()) {
                            let ghost rest = edges_bound(b@, names.take(j as int), plan);
                            let x = EdgeAt { edge: *edge, source: *node };
                            assert((before + rest).push(x) =~= before + rest.push(x));
                            found.push(x);
                        }
                    }
                }
            }
            j = j + 1;
        }
        assert(names.take(names.len() as int) =~= names);
        i = i + 1;
    }
    assert(all.take(all.len() as int) =~= all);
    found
}

/// The properties of what a row binds an alias to.
fn find_properties<'a>(b: &Binding, alias: &str, records: &'a Records) -> (r: Option<&'a Properties>)
    requires
        records.wf(),
    ensures
        match r {
            Some(p) => properties_of(b@, alias@, records@) == Some(storage::property_views(p@)),
            None => properties_of(b@, alias@, records@) is None,
        },
{
    match b.nodes.get(alias) {
        Some(node) => match records.nodes.get(node.0) {
            Some(record) => Some(&record.properties),
            None => None,
        },
        None => match b.edges.get(alias) {
            Some(edge) => match records.edges.get(edge.0) {
                Some(record) => Some(&record.properties),
                None => None,
            },
            None => None,
        },
    }
}

fn meets_all_exec(b: &Binding, conditions: &Vec<(String, PropertyFilter)>, records: &Records) -> (r:
    bool)
    requires
        records.wf(),
    ensures
        r == meets_all(b@, query::conditions_on(conditions@), records@),
{
    let ghost all = query::conditions_on(conditions@);
    let mut i: usize = 0;
    while i < conditions.len()
        invariant
            i <= conditions@.len(),
            records.wf(),
            all == query::conditions_on(conditions@),
            forall|k: int| 0 <= k < i ==> meets_condition(b@, #[trigger] all[k], records@),
        decreases conditions.len() - i,
    {
        let condition = &conditions[i];
        assert(all[i as int] == (condition.0@, condition.1@));
        let met = match find_properties(b, condition.0.as_str(), records) {
            Some(properties) => filter_eval::evaluate_filter(properties, &condition.1),
            None => false,
        };
        if !met {
            assert(!meets_condition(b@, all[i as int], records@));
            return false;
        }
        i = i + 1;
    }
    true
}

/// Keeps the rows that meet all conditions.
pub fn keep_rows(rows: Vec<Binding>, conditions: &Vec<(String, PropertyFilter)>, records: &Records) -> (r:
    Vec<Binding>)
    requires
        records.wf(),
    ensures
        text::views(r@) == keep_meeting(
            text::views(rows@),
            query::conditions_on(conditions@),
            records@,
        ),
{
    let ghost all = text::views(rows@);
    let ghost cs = query::conditions_on(conditions@);
    let mut kept: Vec<Binding> = Vec::new();
    assert(all.take(0) =~= Seq::<BindingView>::empty());
    assert(text::views(kept@) =~= Seq::<BindingView>::empty());
    for b in it: rows
        invariant
            it.seq().len() == all.len(),
            forall|i: int| 0 <= i < all.len() ==> all[i] == (#[trigger] it.seq()[i])@,
            records.wf(),
            cs == query::conditions_on(conditions@),
            text::views(kept@) == keep_meeting(all.take(it.index()), cs, records@),
    {
        let ghost i = it.index();
        assert(all.take(i + 1).drop_last() =~= all.take(i));
        assert(all.take(i + 1).last() == b@);
        if meets_all_exec(&b, conditions, records) {
            proof {
                text::lemma_views_push(kept@, b);
            }
            kept.push(b);
        }
    }
    assert(all.take(all.len() as int) =~= all);
    kept
}

/// The literal of a value. Timestamps, bytes, lists and nothing have none.
pub open spec fn literal_of(v: PropertyValueView) -> Option<LiteralView> {
    match v {
        PropertyValueView::Int64(x) => Some(LiteralView::Int64(x)),
        PropertyValueView::Float64(x) => Some(LiteralView::Float64(x)),
        PropertyValueView::Bool(x) => Some(LiteralView::Bool(x)),
        PropertyValueView::String(x) => Some(LiteralView::String(x)),
        _ => None,
    }
}

/// The literal that a reference stands for in a row.
pub open spec fn referred(b: BindingView, r: PropertyRefView, records: RecordsView) -> Option<
    LiteralView,
> {
    match properties_of(b, r.alias, records) {
        Some(properties) => if properties.dom().contains(r.property) {
            literal_of(properties[r.property])
        } else {
            None
        },
        None => None,
    }
}

/// The conditions of a `NOT EXISTS` for one row: those with literals, then
/// the outer ones with the values that the row gives them. A row for which
/// one has no value has none: no edge can meet that condition.
pub open spec fn resolved_outer(
    b: BindingView,
    conditions: Seq<(Seq<char>, ComparisonOp, PropertyRefView)>,
    records: RecordsView,
) -> Option<Seq<PropertyFilterView>>
    decreases conditions.len(),
{
    if conditions.len() == 0 {
        Some(seq![])
    } else {
        match (
            resolved_outer(b, conditions.drop_last(), records),
            referred(b, conditions.last().2, records),
        ) {
            (Some(rest), Some(value)) => Some(
                rest.push(
                    PropertyFilterView {
                        property: conditions.last().0,
                        op: conditions.last().1,
                        value,
                    },
                ),
            ),
            _ => None,
        }
    }
}

pub open spec fn resolved_conditions(b: BindingView, step: AntiJoinStepView, records: RecordsView) -> Option<
    Seq<PropertyFilterView>,
> {
    match resolved_outer(b, step.outer_conditions, records) {
        Some(outer) => Some(step.literal_conditions + outer),
        None => None,
    }
}

fn value_literal(v: &PropertyValue) -> (r: Option<Literal>)
    ensures
        text::option_view(r) == literal_of(v@),
{
    match v {
        PropertyValue::Int64(x) => Some(Literal::Int64(*x)),
        PropertyValue::Float64(x) => Some(Literal::Float64(*x)),
        PropertyValue::Bool(x) => Some(Literal::Bool(*x)),
        PropertyValue::String(x) => Some(Literal::String(x.clone())),
        PropertyValue::Timestamp(_) => None,
        PropertyValue::Bytes(_) => None,
        PropertyValue::List(_) => None,
        PropertyValue::Null => None,
    }
}

fn refer(b: &Binding, reference: &PropertyRef, records: &Records) -> (r: Option<Literal>)
    requires
        records.wf(),
    ensures
        text::option_view(r) == referred(b@, reference@, records@),
{
    match find_properties(b, reference.alias.as_str(), records) {
        Some(properties) => match properties.get(reference.property.as_str()) {
            Some(value) => value_literal(value),
            None => None,
        },
        None => None,
    }
}

pub open spec fn option_filters(r: Option<Vec<PropertyFilter>>) -> Option<Seq<PropertyFilterView>> {
    match r {
        Some(filters) => Some(text::views(filters@)),
        None => None,
    }
}

proof fn lemma_resolved_prefix(
    b: BindingView,
    conditions: Seq<(Seq<char>, ComparisonOp, PropertyRefView)>,
    records: RecordsView,
    i: int,
)
    requires
        0 <= i <= conditions.len(),
        resolved_outer(b, conditions.take(i), records) is None,
    ensures
        resolved_outer(b, conditions, records) is None,
    decreases conditions.len() - i,
{
    if i < conditions.len() {
        assert(conditions.take(i + 1).drop_last() =~= conditions.take(i));
        lemma_resolved_prefix(b, conditions, records, i + 1);
    } else {
        assert(conditions.take(i) =~= conditions);
    }
}

/// The conditions of a `NOT EXISTS` for one row.
pub fn resolve_conditions(b: &Binding, step: &AntiJoinStep, records: &Records) -> (r: Option<
    Vec<PropertyFilter>,
>)
    requires
        records.wf(),
    ensures
        option_filters(r) == resolved_conditions(b@, step@, records@),
{
    let ghost outer = step@.outer_conditions;
    let ghost literal = step@.literal_conditions;
    let mut filters = text::duplicate_all(&step.literal_conditions);
    let mut i: usize = 0;
    assert(outer.take(0) =~= Seq::<(Seq<char>, ComparisonOp, PropertyRefView)>::empty());
    assert(literal + Seq::<PropertyFilterView>::empty() =~= literal);
    while i < step.outer_conditions.len()
        invariant
            i <= step.outer_conditions@.len(),
            records.wf(),
            outer == query::outer_views(step.outer_conditions@),
            outer == step@.outer_conditions,
            resolved_outer(b@, outer.take(i as int), records@) is Some,
            text::views(filters@) == literal + resolved_outer(
                b@,
                outer.take(i as int),
                records@,
            )->Some_0,
        decreases step.outer_conditions.len() - i,
    {
        assert(outer.take(i + 1).drop_last() =~= outer.take(i as int));
        let condition = &step.outer_conditions[i];
        assert(outer.take(i + 1).last() == (condition.0@, condition.1, condition.2@));
        match refer(b, &condition.2, records) {
            Some(value) => {
                let x = PropertyFilter { property: condition.0.clone(), op: condition.1, value };
                proof {
                    text::lemma_views_push(filters@, x);
                    let rest = resolved_outer(b@, outer.take(i as int), records@)->Some_0;
                    assert((literal + rest).push(x@) =~= literal + rest.push(x@));
                }
                filters.push(x);
            },
            None => {
                proof {
                    lemma_resolved_prefix(b@, outer, records@, i + 1);
                }
                return None;
            },
        }
        i = i + 1;
    }
    assert(outer.take(outer.len() as int) =~= outer);
    Some(filters)
}

fn same_literal(a: &Literal, b: &Literal) -> (r: bool)
    ensures
        r == (a@ == b@),
{
    match (a, b) {
        (Literal::Int64(x), Literal::Int64(y)) => *x == *y,
        (Literal::Float64(x), Literal::Float64(y)) => *x == *y,
        (Literal::FloatText(x), Literal::FloatText(y)) => *x == *y,
        (Literal::Bool(x), Literal::Bool(y)) => *x == *y,
        (Literal::String(x), Literal::String(y)) => *x == *y,
        _ => false,
    }
}

/// Whether two lists hold the same filters.
pub(crate) fn same_filters(a: &Vec<PropertyFilter>, b: &Vec<PropertyFilter>) -> (r: bool)
    ensures
        r == (text::views(a@) == text::views(b@)),
{
    if a.len() != b.len() {
        assert(text::views(a@).len() != text::views(b@).len());
        return false;
    }
    let mut i: usize = 0;
    while i < a.len()
        invariant
            i <= a@.len(),
            a@.len() == b@.len(),
            forall|k: int| 0 <= k < i ==> (#[trigger] a@[k])@ == b@[k]@,
        decreases a.len() - i,
    {
        if !(a[i].property == b[i].property && a[i].op == b[i].op && same_literal(
            &a[i].value,
            &b[i].value,
        )) {
            assert(text::views(a@)[i as int] != text::views(b@)[i as int]);
            return false;
        }
        i = i + 1;
    }
    assert(text::views(a@) =~= text::views(b@));
    true
}

} // verus!
