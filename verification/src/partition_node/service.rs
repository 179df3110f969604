//! What a partition node answers to the coordinator. A request is turned into
//! a step of a plan, the step is executed on the index that is served, and
//! the rows go back.
use crate::dsl;
use crate::dsl::{ComparisonOp, Direction, HopRange, PropertyFilter, PropertyFilterView};
use crate::index::generation;
use crate::index::generation::GenerationHandle;
use crate::index::laws;
use crate::index::{EdgeRecord, IndexGeneration, NodeRecord, PartitionId};
use crate::maps::NamedMap;
use crate::query;
use crate::query::distributed;
use crate::query::local_executor;
use crate::query::{
    AntiJoinStep, AntiJoinStepView, Binding, BindingView, ExecutionError, ExecutionErrorView,
    ExpandHopView, PlanStep, PlanStepView,
};
use crate::storage::SnapshotId;
use crate::text;
use crate::wire;
use crate::wire::{
    EdgeProperties, FieldsView, FilterMessage, FilterMessageView, KindView, NodeProperties, Status,
    StatusView, Value,
};
use std::sync::Arc;
use vstd::prelude::*;

verus! {

/// Asks for the nodes of a label whose property has a value.
#[derive(Clone, Debug)]
pub struct ResolveStartRequest {
    pub alias: String,
    pub label_or_type: String,
    pub property: String,
    pub key: Option<Value>,
}

pub struct ResolveStartRequestView {
    pub alias: Seq<char>,
    pub label_or_type: Seq<char>,
    pub property: Seq<char>,
    pub key: Option<Option<KindView>>,
}

impl View for ResolveStartRequest {
    type V = ResolveStartRequestView;

    open spec fn view(&self) -> ResolveStartRequestView {
        ResolveStartRequestView {
            alias: self.alias@,
            label_or_type: self.label_or_type@,
            property: self.property@,
            key: text::option_view(self.key),
        }
    }
}

/// Asks for all nodes of a label.
#[derive(Clone, Debug)]
pub struct ResolveAllRequest {
    pub alias: String,
    pub label: String,
}

/// Asks for the rows that a hop from the rows of `frontier` leads to. An
/// empty label, edge type or edge alias stands for none.
#[derive(Debug)]
pub struct ExpandHopRequest {
    pub frontier: Vec<Binding>,
    pub from_alias: String,
    pub to_alias: String,
    pub to_label: String,
    pub edge_type: String,
    pub edge_alias: String,
    pub incoming: bool,
    pub hop_min: u32,
    pub hop_max: u32,
    pub filters: Vec<FilterMessage>,
}

pub struct ExpandHopRequestView {
    pub frontier: Seq<BindingView>,
    pub from_alias: Seq<char>,
    pub to_alias: Seq<char>,
    pub to_label: Seq<char>,
    pub edge_type: Seq<char>,
    pub edge_alias: Seq<char>,
    pub incoming: bool,
    pub hop_min: u32,
    pub hop_max: u32,
    pub filters: Seq<FilterMessageView>,
}

impl View for ExpandHopRequest {
    type V = ExpandHopRequestView;

    open spec fn view(&self) -> ExpandHopRequestView {
        ExpandHopRequestView {
            frontier: text::views(self.frontier@),
            from_alias: self.from_alias@,
            to_alias: self.to_alias@,
            to_label: self.to_label@,
            edge_type: self.edge_type@,
            edge_alias: self.edge_alias@,
            incoming: self.incoming,
            hop_min: self.hop_min,
            hop_max: self.hop_max,
            filters: text::views(self.filters@),
        }
    }
}

/// Asks which rows of `frontier` have no edge of a kind between two of their
/// nodes. An empty edge type stands for none.
#[derive(Debug)]
pub struct CheckAntiJoinRequest {
    pub frontier: Vec<Binding>,
    pub from_alias: String,
    pub to_alias: String,
    pub edge_type: String,
    pub incoming: bool,
    pub conditions: Vec<FilterMessage>,
}

pub struct CheckAntiJoinRequestView {
    pub frontier: Seq<BindingView>,
    pub from_alias: Seq<char>,
    pub to_alias: Seq<char>,
    pub edge_type: Seq<char>,
    pub incoming: bool,
    pub conditions: Seq<FilterMessageView>,
}

impl View for CheckAntiJoinRequest {
    type V = CheckAntiJoinRequestView;

    open spec fn view(&self) -> CheckAntiJoinRequestView {
        CheckAntiJoinRequestView {
            frontier: text::views(self.frontier@),
            from_alias: self.from_alias@,
            to_alias: self.to_alias@,
            edge_type: self.edge_type@,
            incoming: self.incoming,
            conditions: text::views(self.conditions@),
        }
    }
}

/// Which snapshots an index is made of, when it was made, and its size.
#[derive(Debug)]
pub struct IndexStatusResponse {
    pub pinned_snapshot_by_table: NamedMap<SnapshotId>,
    pub last_rebuilt_unix_ms: i64,
    pub node_count: u64,
    pub edge_count: u64,
}

/// What an execution is to a caller.
pub open spec fn reply_of<A>(r: Result<A, ExecutionErrorView>) -> Result<A, StatusView> {
    match r {
        Ok(v) => Ok(v),
        Err(e) => Err(StatusView::internal(e.text())),
    }
}

pub open spec fn direction_of(incoming: bool) -> Direction {
    if incoming {
        Direction::Incoming
    } else {
        Direction::Outgoing
    }
}

/// The answer to a request for a start.
pub open spec fn start_reply(g: IndexGeneration, req: ResolveStartRequestView) -> Result<
    Seq<BindingView>,
    StatusView,
> {
    match req.key {
        None => Err(StatusView::invalid_argument("missing key"@)),
        Some(value) => match wire::received_key(value) {
            Err(e) => Err(e),
            Ok(key) => reply_of(
                local_executor::resolved_start(
                    g,
                    PlanStepView::ResolveStart {
                        alias: req.alias,
                        label_or_type: req.label_or_type,
                        property: req.property,
                        key,
                    },
                ),
            ),
        },
    }
}

/// The step that a request for a hop stands for, with its filters.
pub open spec fn hop_of(req: ExpandHopRequestView, filters: Seq<PropertyFilterView>) -> ExpandHopView {
    ExpandHopView {
        from_alias: req.from_alias,
        to_alias: req.to_alias,
        to_label: wire::received_name(req.to_label),
        edge_type: wire::received_name(req.edge_type),
        direction: direction_of(req.incoming),
        hops: HopRange { min: req.hop_min, max: req.hop_max },
        filters,
        edge_alias: wire::received_name(req.edge_alias),
    }
}

/// The answer to a request for a hop. Rows that go on in another partition
/// are sent with the others, behind them.
pub open spec fn hop_reply(g: IndexGeneration, req: ExpandHopRequestView) -> Result<
    Seq<BindingView>,
    StatusView,
> {
    match wire::received_filters(req.filters) {
        Err(e) => Err(e),
        Ok(filters) => reply_of(
            distributed::flat(local_executor::expanded(g, hop_of(req, filters), req.frontier)),
        ),
    }
}

/// Whether a request for a hop can be answered: filters on a labelled node
/// are looked up in an index, which has no keys that are doubles.
pub open spec fn hop_answerable(req: ExpandHopRequestView) -> bool {
    wire::received_filters(req.filters) matches Ok(filters) ==> (local_executor::filters_rows(
        hop_of(req, filters),
    ) ==> local_executor::filters_keyable(filters))
}

/// The step that a request to check a `NOT EXISTS` stands for.
pub open spec fn anti_join_of(req: CheckAntiJoinRequestView) -> AntiJoinStepView {
    AntiJoinStepView {
        from_alias: req.from_alias,
        to_alias: req.to_alias,
        direction: direction_of(req.incoming),
        edge_alias: None,
        edge_type: wire::received_name(req.edge_type),
        literal_conditions: seq![],
        outer_conditions: seq![],
    }
}

/// The answer to a request to check a `NOT EXISTS`.
pub open spec fn anti_reply(g: IndexGeneration, req: CheckAntiJoinRequestView) -> Result<
    Seq<BindingView>,
    StatusView,
> {
    match wire::received_filters(req.conditions) {
        Err(e) => Err(e),
        Ok(conditions) => reply_of(
            local_executor::checked(g, anti_join_of(req), conditions, req.frontier),
        ),
    }
}

/// The nodes among `ids` that an index knows, with their properties.
pub open spec fn known_nodes(ids: Seq<u64>, records: Map<u64, NodeRecord>) -> Seq<(u64, FieldsView)>
    decreases ids.len(),
{
    if ids.len() == 0 {
        seq![]
    } else {
        let rest = known_nodes(ids.drop_last(), records);
        if records.dom().contains(ids.last()) {
            let record = records[ids.last()]@;
            rest.push(
                (
                    ids.last(),
                    FieldsView {
                        name: record.label,
                        fields: wire::sent_fields(record.properties),
                    },
                ),
            )
        } else {
            rest
        }
    }
}

/// The edges among `ids` that an index knows, with their properties.
pub open spec fn known_edges(ids: Seq<u64>, records: Map<u64, EdgeRecord>) -> Seq<(u64, FieldsView)>
    decreases ids.len(),
{
    if ids.len() == 0 {
        seq![]
    } else {
        let rest = known_edges(ids.drop_last(), records);
        if records.dom().contains(ids.last()) {
            let record = records[ids.last()]@;
            rest.push(
                (
                    ids.last(),
                    FieldsView {
                        name: record.edge_type,
                        fields: wire::sent_fields(record.properties),
                    },
                ),
            )
        } else {
            rest
        }
    }
}

/// What a result stands for.
pub open spec fn rows_reply(r: Result<Vec<Binding>, Status>) -> Result<
    Seq<BindingView>,
    StatusView,
> {
    match r {
        Ok(rows) => Ok(text::views(rows@)),
        Err(e) => Err(e@),
    }
}

pub open spec fn node_fields(pairs: Seq<(u64, NodeProperties)>) -> Seq<(u64, FieldsView)> {
    Seq::new(pairs.len(), |i: int| (pairs[i].0, pairs[i].1@))
}

pub open spec fn edge_fields(pairs: Seq<(u64, EdgeProperties)>) -> Seq<(u64, FieldsView)> {
    Seq::new(pairs.len(), |i: int| (pairs[i].0, pairs[i].1@))
}

fn internal(e: &ExecutionError) -> (r: Status)
    ensures
        r@ == StatusView::internal(e@.text()),
{
    Status::internal(e.message().as_str())
}

fn rows_or_status(r: Result<Vec<Binding>, ExecutionError>) -> (s: Result<Vec<Binding>, Status>)
    ensures
        rows_reply(s) == reply_of(query::rows_view(r)),
{
    match r {
        Ok(rows) => Ok(rows),
        Err(e) => Err(internal(&e)),
    }
}

/// Answers a request for a start.
pub fn answer_resolve_start(g: &IndexGeneration, req: ResolveStartRequest) -> (r: Result<
    Vec<Binding>,
    Status,
>)
    ensures
        rows_reply(r) == start_reply(*g, req@),
{
    let value = match req.key {
        None => {
            return Err(Status::invalid_argument("missing key"));
        },
        Some(value) => value,
    };
    let key = match wire::proto_value_to_property_key(&value) {
        Err(e) => {
            return Err(e);
        },
        Ok(key) => key,
    };
    let step = PlanStep::ResolveStart {
        alias: req.alias,
        label_or_type: req.label_or_type,
        property: req.property,
        key,
    };
    rows_or_status(local_executor::resolve_start_in(g, &step))
}

/// Answers a request for all nodes of a label.
pub fn answer_resolve_all(g: &IndexGeneration, req: ResolveAllRequest) -> (r: Result<
    Vec<Binding>,
    Status,
>)
    requires
        g.wf(),
    ensures
        rows_reply(r) == reply_of(
            local_executor::resolved_all(
                *g,
                PlanStepView::ResolveAll { alias: req.alias@, label: req.label@ },
            ),
        ),
{
    let step = PlanStep::ResolveAll { alias: req.alias, label: req.label };
    rows_or_status(local_executor::resolve_all_in(g, &step))
}

fn keyable_filters(filters: &Vec<PropertyFilter>) -> (r: bool)
    ensures
        r == local_executor::filters_keyable(text::views(filters@)),
{
    let ghost all = text::views(filters@);
    let mut i: usize = 0;
    assert(all.skip(0) =~= all);
    while i < filters.len()
        invariant
            i <= filters@.len(),
            all == text::views(filters@),
            local_executor::filters_keyable(all) == local_executor::filters_keyable(
                all.skip(i as int),
            ),
        decreases filters.len() - i,
    {
        let f = &filters[i];
        proof {
            assert(all.skip(i as int)[0] == f@);
            assert(all.skip(i as int).drop_first() =~= all.skip(i + 1));
        }
        let keyable = match &f.value {
            dsl::Literal::Float64(_) | dsl::Literal::FloatText(_) => false,
            _ => true,
        };
        if !keyable {
            return false;
        }
        if f.op == ComparisonOp::Ne {
            return true;
        }
        i = i + 1;
    }
    true
}

/// Whether a request for a hop can be answered.
pub fn can_expand(req: &ExpandHopRequest) -> (r: bool)
    ensures
        r == hop_answerable(req@),
{
    match wire::proto_filters_to_filters(&req.filters) {
        Err(_) => true,
        Ok(filters) => filters.len() == 0 || req.to_label.as_str().unicode_len() == 0
            || keyable_filters(&filters),
    }
}

/// Answers a request for a hop.
pub fn answer_expand_hop(g: &IndexGeneration, req: ExpandHopRequest) -> (r: Result<
    Vec<Binding>,
    Status,
>)
    requires
        g.wf(),
        hop_answerable(req@),
    ensures
        rows_reply(r) == hop_reply(*g, req@),
{
    let filters = match wire::proto_filters_to_filters(&req.filters) {
        Err(e) => {
            return Err(e);
        },
        Ok(filters) => filters,
    };
    let direction = if req.incoming {
        Direction::Incoming
    } else {
        Direction::Outgoing
    };
    let step = PlanStep::ExpandHop {
        from_alias: req.from_alias,
        to_alias: req.to_alias,
        to_label: wire::proto_name_to_option(&req.to_label),
        edge_type: wire::proto_name_to_option(&req.edge_type),
        direction,
        hops: HopRange { min: req.hop_min, max: req.hop_max },
        filters,
        edge_alias: wire::proto_name_to_option(&req.edge_alias),
    };
    assert(step@ == PlanStepView::ExpandHop(hop_of(req@, text::views(filters@))));
    match local_executor::expand_hop_in(g, &step, &req.frontier) {
        Ok(f) => Ok(distributed::flatten(f)),
        Err(e) => Err(internal(&e)),
    }
}

/// Answers a request to check a `NOT EXISTS`.
pub fn answer_check_anti_join(g: &IndexGeneration, req: CheckAntiJoinRequest) -> (r: Result<
    Vec<Binding>,
    Status,
>)
    requires
        g.wf(),
    ensures
        rows_reply(r) == anti_reply(*g, req@),
{
    let conditions = match wire::proto_filters_to_filters(&req.conditions) {
        Err(e) => {
            return Err(e);
        },
        Ok(conditions) => conditions,
    };
    let direction = if req.incoming {
        Direction::Incoming
    } else {
        Direction::Outgoing
    };
    let step = AntiJoinStep {
        from_alias: req.from_alias,
        to_alias: req.to_alias,
        direction,
        edge_alias: None,
        edge_type: wire::proto_name_to_option(&req.edge_type),
        literal_conditions: Vec::new(),
        outer_conditions: Vec::new(),
    };
    proof {
        assert(step@.literal_conditions =~= anti_join_of(req@).literal_conditions);
        assert(step@.outer_conditions =~= anti_join_of(req@).outer_conditions);
    }
    rows_or_status(local_executor::check_anti_join_in(g, &step, &conditions, &req.frontier))
}

/// The properties of nodes. Ids that the index does not know are passed over.
pub fn answer_get_node_properties(g: &IndexGeneration, ids: &Vec<u64>) -> (r: Vec<
    (u64, NodeProperties),
>)
    requires
        g.wf(),
    ensures
        node_fields(r@) == known_nodes(ids@, g.node_records.map()),
{
    let ghost records = g.node_records.map();
    let mut out: Vec<(u64, NodeProperties)> = Vec::new();
    let mut i: usize = 0;
    proof {
        assert(ids@.take(0) =~= Seq::<u64>::empty());
        assert(node_fields(out@) =~= Seq::<(u64, FieldsView)>::empty());
    }
    while i < ids.len()
        invariant
            i <= ids@.len(),
            g.wf(),
            records == g.node_records.map(),
            node_fields(out@) == known_nodes(ids@.take(i as int), records),
        decreases ids.len() - i,
    {
        let id: u64 = ids[i];
        assert(ids@.take(i + 1).drop_last() =~= ids@.take(i as int));
        match g.node_records.get(id) {
            Some(record) => {
                let ghost before = out@;
                let properties = wire::node_record_to_proto(record);
                out.push((id, properties));
                assert(node_fields(out@) =~= node_fields(before).push((id, properties@)));
            },
            None => {},
        }
        i = i + 1;
    }
    assert(ids@.take(ids@.len() as int) =~= ids@);
    out
}

/// The properties of edges. Ids that the index does not know are passed over.
pub fn answer_get_edge_properties(g: &IndexGeneration, ids: &Vec<u64>) -> (r: Vec<
    (u64, EdgeProperties),
>)
    requires
        g.wf(),
    ensures
        edge_fields(r@) == known_edges(ids@, g.edge_records.map()),
{
    let ghost records = g.edge_records.map();
    let mut out: Vec<(u64, EdgeProperties)> = Vec::new();
    let mut i: usize = 0;
    proof {
        assert(ids@.take(0) =~= Seq::<u64>::empty());
        assert(edge_fields(out@) =~= Seq::<(u64, FieldsView)>::empty());
    }
    while i < ids.len()
        invariant
            i <= ids@.len(),
            g.wf(),
            records == g.edge_records.map(),
            edge_fields(out@) == known_edges(ids@.take(i as int), records),
        decreases ids.len() - i,
    {
        let id: u64 = ids[i];
        assert(ids@.take(i + 1).drop_last() =~= ids@.take(i as int));
        match g.edge_records.get(id) {
            Some(record) => {
                let ghost before = out@;
                let properties = wire::edge_record_to_proto(record);
                out.push((id, properties));
                assert(edge_fields(out@) =~= edge_fields(before).push((id, properties@)));
            },
            None => {},
        }
        i = i + 1;
    }
    assert(ids@.take(ids@.len() as int) =~= ids@);
    out
}

/// That a status is that of an index.
pub open spec fn tells(r: IndexStatusResponse, g: IndexGeneration) -> bool {
    &&& r.pinned_snapshot_by_table@ == g.meta.snapshot_by_table@
    &&& r.last_rebuilt_unix_ms == g.meta.built_at_unix_ms
    &&& r.node_count == g.meta.node_count
    &&& r.edge_count == g.meta.edge_count
}

/// The status of an index.
pub fn answer_get_index_status(g: &IndexGeneration) -> (r: IndexStatusResponse)
    ensures
        tells(r, *g),
{
    IndexStatusResponse {
        pinned_snapshot_by_table: g.meta.snapshot_by_table.copied(),
        last_rebuilt_unix_ms: g.meta.built_at_unix_ms,
        node_count: g.meta.node_count,
        edge_count: g.meta.edge_count,
    }
}

/// Answers requests on whatever index is served when they come in.
pub struct PartitionServiceImpl {
    generation: Arc<GenerationHandle>,
    partition: PartitionId,
}

impl PartitionServiceImpl {
    /// Where the index that is served is held.
    pub closed spec fn handle(&self) -> GenerationHandle {
        *self.generation
    }

    pub closed spec fn number(&self) -> PartitionId {
        self.partition
    }

    pub fn new(generation: Arc<GenerationHandle>, partition: PartitionId) -> (r: Self)
        ensures
            r.handle() == *generation,
            r.number() == partition,
    {
        PartitionServiceImpl { generation, partition }
    }

    /// The partition that is served.
    pub fn partition(&self) -> (r: PartitionId)
        ensures
            r == self.number(),
    {
        self.partition
    }

    pub fn resolve_start(&self, req: ResolveStartRequest) -> (r: Result<Vec<Binding>, Status>)
        ensures
            exists|g: IndexGeneration| generation::generations(self.handle()).contains(g) && g.wf() && rows_reply(r) == #[trigger] start_reply(g, req@),
    {
        let g = self.generation.acquire();
        answer_resolve_start(&*g, req)
    }

    pub fn resolve_all(&self, req: ResolveAllRequest) -> (r: Result<Vec<Binding>, Status>)
        ensures
            exists|g: IndexGeneration|
                generation::generations(self.handle()).contains(g) && g.wf() && rows_reply(r) == reply_of(
                    #[trigger] local_executor::resolved_all(
                        g,
                        PlanStepView::ResolveAll { alias: req.alias@, label: req.label@ },
                    ),
                ),
    {
        let g = self.generation.acquire();
        answer_resolve_all(&*g, req)
    }

    pub fn expand_hop(&self, req: ExpandHopRequest) -> (r: Result<Vec<Binding>, Status>)
        requires
            hop_answerable(req@),
        ensures
            exists|g: IndexGeneration| generation::generations(self.handle()).contains(g) && g.wf() && rows_reply(r) == #[trigger] hop_reply(g, req@),
    {
        let g = self.generation.acquire();
        answer_expand_hop(&*g, req)
    }

    pub fn check_anti_join(&self, req: CheckAntiJoinRequest) -> (r: Result<Vec<Binding>, Status>)
        ensures
            exists|g: IndexGeneration| generation::generations(self.handle()).contains(g) && g.wf() && rows_reply(r) == #[trigger] anti_reply(g, req@),
    {
        let g = self.generation.acquire();
        answer_check_anti_join(&*g, req)
    }

    pub fn get_node_properties(&self, ids: &Vec<u64>) -> (r: Vec<(u64, NodeProperties)>)
        ensures
            exists|g: IndexGeneration|
                generation::generations(self.handle()).contains(g) && g.wf() && node_fields(r@) == #[trigger] known_nodes(ids@, g.node_records.map()),
    {
        let g = self.generation.acquire();
        answer_get_node_properties(&*g, ids)
    }

    pub fn get_edge_properties(&self, ids: &Vec<u64>) -> (r: Vec<(u64, EdgeProperties)>)
        ensures
            exists|g: IndexGeneration|
                generation::generations(self.handle()).contains(g) && g.wf() && edge_fields(r@) == #[trigger] known_edges(ids@, g.edge_records.map()),
    {
        let g = self.generation.acquire();
        answer_get_edge_properties(&*g, ids)
    }

    pub fn get_index_status(&self) -> (r: IndexStatusResponse)
        ensures
            exists|g: IndexGeneration| generation::generations(self.handle()).contains(g) && g.wf() && #[trigger] tells(r, g),
    {
        let g = self.generation.acquire();
        answer_get_index_status(&*g)
    }
}

/// A node is answered with its label and what can be sent of its properties,
/// exactly where it is asked for and held; nothing else is answered.
pub proof fn law_the_nodes_asked_for_are_answered(
    ids: Seq<u64>,
    records: Map<u64, NodeRecord>,
    id: u64,
    fields: FieldsView,
)
    ensures
        known_nodes(ids, records).contains((id, fields)) <==> ids.contains(id)
            && records.dom().contains(id) && fields.name == records[id]@.label && fields.fields
            == wire::sent_fields(records[id]@.properties),
        known_nodes(ids, records).len() <= ids.len(),
    decreases ids.len(),
{
    if ids.len() > 0 {
        let shorter = ids.drop_last();
        let x = ids.last();
        law_the_nodes_asked_for_are_answered(shorter, records, id, fields);
        assert(ids =~= shorter.push(x));
        laws::lemma_contains_push(shorter, x, id);
        if records.dom().contains(x) {
            let pair = (
                x,
                FieldsView {
                    name: records[x]@.label,
                    fields: wire::sent_fields(records[x]@.properties),
                },
            );
            laws::lemma_contains_push(known_nodes(shorter, records), pair, (id, fields));
        }
    }
}

/// An edge is answered with its type and what can be sent of its properties,
/// exactly where it is asked for and held.
pub proof fn law_the_edges_asked_for_are_answered(
    ids: Seq<u64>,
    records: Map<u64, EdgeRecord>,
    id: u64,
    fields: FieldsView,
)
    ensures
        known_edges(ids, records).contains((id, fields)) <==> ids.contains(id)
            && records.dom().contains(id) && fields.name == records[id]@.edge_type && fields.fields
            == wire::sent_fields(records[id]@.properties),
        known_edges(ids, records).len() <= ids.len(),
    decreases ids.len(),
{
    if ids.len() > 0 {
        let shorter = ids.drop_last();
        let x = ids.last();
        law_the_edges_asked_for_are_answered(shorter, records, id, fields);
        assert(ids =~= shorter.push(x));
        laws::lemma_contains_push(shorter, x, id);
        if records.dom().contains(x) {
            let pair = (
                x,
                FieldsView {
                    name: records[x]@.edge_type,
                    fields: wire::sent_fields(records[x]@.properties),
                },
            );
            laws::lemma_contains_push(known_edges(shorter, records), pair, (id, fields));
        }
    }
}

/// A request that cannot be understood is refused as invalid: a start without
/// a key that values can be looked up under, a hop or a check with a filter
/// that cannot be received. What fails on an index is a fault within.
pub proof fn law_requests_are_refused_by_whose_fault_it_is(
    g: IndexGeneration,
    start: ResolveStartRequestView,
    hop: ExpandHopRequestView,
    check: CheckAntiJoinRequestView,
)
    ensures
        !(start.key matches Some(Some(k)) && !(k is Float64Value) && !(k is BytesValue)) ==> (
        start_reply(g, start) matches Err(e) && e.code == wire::Code::InvalidArgument),
        (start.key matches Some(Some(k)) && !(k is Float64Value) && !(k is BytesValue)) ==> (
        start_reply(g, start) matches Err(e) ==> e.code == wire::Code::Internal),
        (exists|i: int|
            0 <= i < hop.filters.len() && wire::received_filter(#[trigger] hop.filters[i]) is Err)
            ==> hop_reply(g, hop) is Err,
        (forall|i: int|
            0 <= i < hop.filters.len() ==> wire::received_filter(#[trigger] hop.filters[i]) is Ok)
            ==> (hop_reply(g, hop) matches Err(e) ==> e.code == wire::Code::Internal),
        (exists|i: int|
            0 <= i < check.conditions.len() && wire::received_filter(
                #[trigger] check.conditions[i],
            ) is Err) ==> anti_reply(g, check) is Err,
        (forall|i: int|
            0 <= i < check.conditions.len() ==> wire::received_filter(
                #[trigger] check.conditions[i],
            ) is Ok) ==> (anti_reply(g, check) matches Err(e) ==> e.code == wire::Code::Internal),
{
    if let Some(k) = start.key {
        wire::law_keys_are_received_as_sent(k);
    }
    wire::law_filters_are_received_one_for_one(hop.filters);
    wire::law_filters_are_received_one_for_one(check.conditions);
}

} // verus!
