//! How the steps of a plan are put as requests to a partition node, and what
//! its replies stand for.
use crate::dsl::{Direction, PropertyFilter, PropertyFilterView};
use crate::index::{EdgeRecord, EdgeRecordView, IndexGeneration, NodeRecord, NodeRecordView};
use crate::partition_node::service;
use crate::partition_node::service::{
    CheckAntiJoinRequest, CheckAntiJoinRequestView, ExpandHopRequest, ExpandHopRequestView,
    ResolveAllRequest, ResolveStartRequest, ResolveStartRequestView,
};
use crate::query;
use crate::query::distributed;
use crate::query::local_executor;
use crate::query::{
    AntiJoinStep, AntiJoinStepView, Binding, BindingView, ExecutionError, ExecutionErrorView,
    ExpandHopView, Frontier, PlanStep, PlanStepView,
};
use crate::schema::{EdgeId, NodeId};
use crate::text;
use crate::wire;
use crate::wire::{EdgeProperties, FieldsView, FilterMessageView, NodeProperties, StatusView};
use vstd::prelude::*;
use vstd::string::*;

verus! {

/// The request for a start.
pub open spec fn start_request(step: PlanStepView) -> Result<
    ResolveStartRequestView,
    ExecutionErrorView,
> {
    match step {
        PlanStepView::ResolveStart { alias, label_or_type, property, key } => Ok(
            ResolveStartRequestView {
                alias,
                label_or_type,
                property,
                key: Some(Some(wire::sent_key(key))),
            },
        ),
        _ => Err(ExecutionErrorView::Rpc("resolve_start called with a non-ResolveStart step"@)),
    }
}

pub fn make_start_request(step: &PlanStep) -> (r: Result<ResolveStartRequest, ExecutionError>)
    ensures
        match r {
            Ok(req) => start_request(step@) == Ok::<ResolveStartRequestView, ExecutionErrorView>(
                req@,
            ),
            Err(e) => start_request(step@) == Err::<ResolveStartRequestView, ExecutionErrorView>(
                e@,
            ),
        },
{
    match step {
        PlanStep::ResolveStart { alias, label_or_type, property, key } => Ok(
            ResolveStartRequest {
                alias: alias.clone(),
                label_or_type: label_or_type.clone(),
                property: property.clone(),
                key: Some(wire::property_key_to_proto(key)),
            },
        ),
        _ => Err(
            ExecutionError::Rpc("resolve_start called with a non-ResolveStart step".to_owned()),
        ),
    }
}

pub fn make_all_request(step: &PlanStep) -> (r: Result<ResolveAllRequest, ExecutionError>)
    ensures
        match r {
            Ok(req) => step@ == (PlanStepView::ResolveAll { alias: req.alias@, label: req.label@ }),
            Err(e) => !(step@ is ResolveAll) && e@ == ExecutionErrorView::Rpc(
                "resolve_all called with a non-ResolveAll step"@,
            ),
        },
{
    match step {
        PlanStep::ResolveAll { alias, label } => Ok(
            ResolveAllRequest { alias: alias.clone(), label: label.clone() },
        ),
        _ => Err(ExecutionError::Rpc("resolve_all called with a non-ResolveAll step".to_owned())),
    }
}

/// Filters as they are sent.
pub open spec fn sent_filters(filters: Seq<PropertyFilterView>) -> Seq<FilterMessageView> {
    filters.map_values(|f: PropertyFilterView| wire::sent_filter(f))
}

/// The request for a hop.
pub open spec fn hop_request(hop: ExpandHopView, frontier: Seq<BindingView>) -> ExpandHopRequestView {
    ExpandHopRequestView {
        frontier,
        from_alias: hop.from_alias,
        to_alias: hop.to_alias,
        to_label: wire::sent_name(hop.to_label),
        edge_type: wire::sent_name(hop.edge_type),
        edge_alias: wire::sent_name(hop.edge_alias),
        incoming: hop.direction == Direction::Incoming,
        hop_min: hop.hops.min,
        hop_max: hop.hops.max,
        filters: sent_filters(hop.filters),
    }
}

pub fn make_hop_request(step: &PlanStep, frontier: &Vec<Binding>) -> (r: Result<
    ExpandHopRequest,
    ExecutionError,
>)
    ensures
        match r {
            Ok(req) => step@ is ExpandHop && req@ == hop_request(
                step@->ExpandHop_0,
                text::views(frontier@),
            ),
            Err(e) => !(step@ is ExpandHop) && e@ == ExecutionErrorView::Rpc(
                "expand_hop called with a non-ExpandHop step"@,
            ),
        },
{
    match step {
        PlanStep::ExpandHop {
            from_alias,
            to_alias,
            to_label,
            edge_type,
            direction,
            hops,
            filters,
            edge_alias,
        } => {
            let incoming = match direction {
                Direction::Incoming => true,
                Direction::Outgoing => false,
            };
            Ok(
                ExpandHopRequest {
                    frontier: text::duplicate_all(frontier),
                    from_alias: from_alias.clone(),
                    to_alias: to_alias.clone(),
                    to_label: wire::name_to_proto(to_label),
                    edge_type: wire::name_to_proto(edge_type),
                    edge_alias: wire::name_to_proto(edge_alias),
                    incoming,
                    hop_min: hops.min,
                    hop_max: hops.max,
                    filters: wire::filters_to_proto(filters),
                },
            )
        },
        _ => Err(ExecutionError::Rpc("expand_hop called with a non-ExpandHop step".to_owned())),
    }
}

/// The request to check a `NOT EXISTS`.
pub open spec fn anti_request(
    step: AntiJoinStepView,
    conditions: Seq<PropertyFilterView>,
    frontier: Seq<BindingView>,
) -> CheckAntiJoinRequestView {
    CheckAntiJoinRequestView {
        frontier,
        from_alias: step.from_alias,
        to_alias: step.to_alias,
        edge_type: wire::sent_name(step.edge_type),
        incoming: step.direction == Direction::Incoming,
        conditions: sent_filters(conditions),
    }
}

pub fn make_anti_request(
    step: &AntiJoinStep,
    conditions: &Vec<PropertyFilter>,
    frontier: &Vec<Binding>,
) -> (r: CheckAntiJoinRequest)
    ensures
        r@ == anti_request(step@, text::views(conditions@), text::views(frontier@)),
{
    let incoming = match step.direction {
        Direction::Incoming => true,
        Direction::Outgoing => false,
    };
    CheckAntiJoinRequest {
        frontier: text::duplicate_all(frontier),
        from_alias: step.from_alias.clone(),
        to_alias: step.to_alias.clone(),
        edge_type: wire::name_to_proto(&step.edge_type),
        incoming,
        conditions: wire::filters_to_proto(conditions),
    }
}

/// Rows that came back from a hop. Where they go on is found out anew, so all
/// of them are taken as local.
pub fn received_frontier(rows: Vec<Binding>) -> (r: Frontier)
    ensures
        r@.local == text::views(rows@),
        r@.remote.len() == 0,
{
    Frontier { local: rows, remote: Vec::new() }
}

/// The nodes of a reply.
pub open spec fn received_nodes(pairs: Seq<(u64, FieldsView)>) -> Seq<(NodeId, NodeRecordView)> {
    Seq::new(
        pairs.len(),
        |i: int|
            (
                NodeId(pairs[i].0),
                NodeRecordView {
                    label: pairs[i].1.name,
                    properties: wire::received_fields(pairs[i].1.fields),
                },
            ),
    )
}

pub fn read_nodes(pairs: &Vec<(u64, NodeProperties)>) -> (r: Vec<(NodeId, NodeRecord)>)
    ensures
        distributed::node_pairs(r@) == received_nodes(service::node_fields(pairs@)),
{
    let mut out: Vec<(NodeId, NodeRecord)> = Vec::new();
    let mut i: usize = 0;
    while i < pairs.len()
        invariant
            i <= pairs@.len(),
            out@.len() == i,
            forall|k: int|
                0 <= k < i ==> (#[trigger] out@[k]).0 == NodeId(pairs@[k].0) && out@[k].1@ == (
                NodeRecordView {
                    label: pairs@[k].1@.name,
                    properties: wire::received_fields(pairs@[k].1@.fields),
                }),
        decreases pairs.len() - i,
    {
        let p = &pairs[i];
        out.push((NodeId(p.0), wire::proto_node_properties_to_record(&p.1)));
        i = i + 1;
    }
    assert(distributed::node_pairs(out@) =~= received_nodes(service::node_fields(pairs@)));
    out
}

/// The edges of a reply.
pub open spec fn received_edges(pairs: Seq<(u64, FieldsView)>) -> Seq<(EdgeId, EdgeRecordView)> {
    Seq::new(
        pairs.len(),
        |i: int|
            (
                EdgeId(pairs[i].0),
                EdgeRecordView {
                    edge_type: pairs[i].1.name,
                    properties: wire::received_fields(pairs[i].1.fields),
                },
            ),
    )
}

pub fn read_edges(pairs: &Vec<(u64, EdgeProperties)>) -> (r: Vec<(EdgeId, EdgeRecord)>)
    ensures
        distributed::edge_pairs(r@) == received_edges(service::edge_fields(pairs@)),
{
    let mut out: Vec<(EdgeId, EdgeRecord)> = Vec::new();
    let mut i: usize = 0;
    while i < pairs.len()
        invariant
            i <= pairs@.len(),
            out@.len() == i,
            forall|k: int|
                0 <= k < i ==> (#[trigger] out@[k]).0 == EdgeId(pairs@[k].0) && out@[k].1@ == (
                EdgeRecordView {
                    edge_type: pairs@[k].1@.name,
                    properties: wire::received_fields(pairs@[k].1@.fields),
                }),
        decreases pairs.len() - i,
    {
        let p = &pairs[i];
        out.push((EdgeId(p.0), wire::proto_edge_properties_to_record(&p.1)));
        i = i + 1;
    }
    assert(distributed::edge_pairs(out@) =~= received_edges(service::edge_fields(pairs@)));
    out
}

/// That no filter has a literal whose double is not known.
pub open spec fn doubles_known(filters: Seq<PropertyFilterView>) -> bool {
    forall|i: int| 0 <= i < filters.len() ==> !((#[trigger] filters[i]).value is FloatText)
}

pub open spec fn not_empty(name: Option<Seq<char>>) -> bool {
    name matches Some(n) ==> n.len() > 0
}

proof fn lemma_filters_arrive(filters: Seq<PropertyFilterView>)
    requires
        doubles_known(filters),
    ensures
        wire::received_filters(sent_filters(filters)) == Ok::<Seq<PropertyFilterView>, StatusView>(
            filters,
        ),
    decreases filters.len(),
{
    if filters.len() == 0 {
        assert(filters =~= Seq::<PropertyFilterView>::empty());
    } else {
        let shorter = filters.drop_last();
        assert forall|i: int| 0 <= i < shorter.len() implies !((#[trigger] shorter[i]).value is FloatText) by {
            assert(shorter[i] == filters[i]);
        }
        lemma_filters_arrive(shorter);
        assert(sent_filters(filters).drop_last() =~= sent_filters(shorter));
        assert(!(filters[filters.len() - 1].value is FloatText));
        wire::law_filters_arrive(filters.last());
        assert(shorter.push(filters.last()) =~= filters);
    }
}

/// A node answers a request for a start with the rows of the start.
pub proof fn law_a_start_is_answered_as_planned(g: IndexGeneration, step: PlanStepView)
    requires
        step is ResolveStart,
    ensures
        start_request(step) is Ok,
        service::start_reply(g, start_request(step)->Ok_0) == service::reply_of(
            local_executor::resolved_start(g, step),
        ),
{
}

/// A node answers a request for a hop with the rows of the hop, those that go
/// on elsewhere last, unless a label, an edge type or an edge alias is empty,
/// or a filter has a literal whose double is not known.
pub proof fn law_a_hop_is_answered_as_planned(
    g: IndexGeneration,
    hop: ExpandHopView,
    frontier: Seq<BindingView>,
)
    requires
        not_empty(hop.to_label),
        not_empty(hop.edge_type),
        not_empty(hop.edge_alias),
        doubles_known(hop.filters),
    ensures
        service::hop_reply(g, hop_request(hop, frontier)) == service::reply_of(
            distributed::flat(local_executor::expanded(g, hop, frontier)),
        ),
{
    lemma_filters_arrive(hop.filters);
    assert(service::hop_of(hop_request(hop, frontier), hop.filters) == hop);
}

proof fn lemma_survivors_same(
    g: IndexGeneration,
    a: AntiJoinStepView,
    b: AntiJoinStepView,
    conditions: Seq<PropertyFilterView>,
    rows: Seq<BindingView>,
)
    requires
        a.from_alias == b.from_alias,
        a.to_alias == b.to_alias,
        a.direction == b.direction,
        a.edge_type == b.edge_type,
    ensures
        local_executor::survivors(g, a, conditions, rows) == local_executor::survivors(
            g,
            b,
            conditions,
            rows,
        ),
    decreases rows.len(),
{
    if rows.len() > 0 {
        lemma_survivors_same(g, a, b, conditions, rows.drop_last());
        let row = rows.last();
        let entries = crate::query::walk::entries_of(
            g.topology,
            row.nodes[a.from_alias],
            a.direction,
        );
        assert forall|i: int| 0 <= i < entries.len() implies local_executor::forbidden(
            g,
            a,
            conditions,
            #[trigger] entries[i],
            row.nodes[a.to_alias],
        ) == local_executor::forbidden(g, b, conditions, entries[i], row.nodes[b.to_alias]) by {}
        assert(local_executor::has_forbidden(g, a, conditions, row)
            == local_executor::has_forbidden(g, b, conditions, row));
    }
}

proof fn lemma_unbound_same(a: AntiJoinStepView, b: AntiJoinStepView, rows: Seq<BindingView>)
    requires
        a.from_alias == b.from_alias,
        a.to_alias == b.to_alias,
    ensures
        local_executor::first_unbound(rows, a) == local_executor::first_unbound(rows, b),
    decreases rows.len(),
{
    if rows.len() > 0 {
        lemma_unbound_same(a, b, rows.drop_first());
    }
}

/// A node answers a request to check a `NOT EXISTS` with the rows that it
/// leaves, unless the edge type is empty or a condition has a literal whose
/// double is not known.
pub proof fn law_not_exists_is_answered_as_planned(
    g: IndexGeneration,
    step: AntiJoinStepView,
    conditions: Seq<PropertyFilterView>,
    frontier: Seq<BindingView>,
)
    requires
        not_empty(step.edge_type),
        doubles_known(conditions),
    ensures
        service::anti_reply(g, anti_request(step, conditions, frontier)) == service::reply_of(
            local_executor::checked(g, step, conditions, frontier),
        ),
{
    lemma_filters_arrive(conditions);
    let sent = service::anti_join_of(anti_request(step, conditions, frontier));
    lemma_survivors_same(g, sent, step, conditions, frontier);
    lemma_unbound_same(sent, step, frontier);
}

} // verus!
