//! Executes a plan over a cluster: each hop sends the current rows to the
//! partitions that own them, gathers the answers, and goes on from there.
//!
//! A start is asked of every partition, as each indexes only its own nodes.
//! Filters are checked once a step is done, on fetched properties. Rows that
//! a partition without a healthy replica owns go no further.
use crate::cluster::{PartitionHasher, PartitionMap, ReplicaEndpoint, ReplicaEndpointView};
use crate::dsl::{HopRange, PropertyFilter, PropertyFilterView};
use crate::index::builder;
use crate::index::{EdgeRecord, EdgeRecordView, NodeRecord, NodeRecordView, PartitionId};
use crate::maps::IdMap;
use crate::query;
use crate::query::hydration;
use crate::query::hydration::{Records, RecordsView};
use crate::query::local_executor;
use crate::query::routing;
use crate::query::routing::EdgeAt;
use crate::query::walk;
use crate::query::{
    AntiJoinStep, AntiJoinStepView, Binding, BindingView, ExecutionError, ExecutionErrorView,
    ExpandHopView, Frontier, FrontierView, PlanStep, PlanStepView, QueryPlan, QueryPlanView,
};
use crate::schema::{EdgeId, NodeId};
use crate::text;
use crate::text::Duplicate;
use vstd::prelude::*;
use vstd::string::*;

verus! {

/// How replicas are asked. What a replica answers is up to the replica: the
/// specification functions say which answers count as answers to which
/// question. An implementation that says nothing of them admits every answer.
pub trait PartitionRpc {
    /// Whether a replica may answer a start by a property so.
    open spec fn start_answer(
        &self,
        replica: ReplicaEndpointView,
        step: PlanStepView,
        reply: Result<Seq<BindingView>, ExecutionErrorView>,
    ) -> bool {
        true
    }

    /// Whether a replica may answer a start by a label alone so.
    open spec fn all_answer(
        &self,
        replica: ReplicaEndpointView,
        step: PlanStepView,
        reply: Result<Seq<BindingView>, ExecutionErrorView>,
    ) -> bool {
        true
    }

    /// Whether a replica may answer a hop so.
    open spec fn hop_answer(
        &self,
        replica: ReplicaEndpointView,
        step: PlanStepView,
        frontier: Seq<BindingView>,
        reply: Result<FrontierView, ExecutionErrorView>,
    ) -> bool {
        true
    }

    /// Whether a replica may answer a check of a `NOT EXISTS` so.
    open spec fn check_answer(
        &self,
        replica: ReplicaEndpointView,
        step: AntiJoinStepView,
        conditions: Seq<PropertyFilterView>,
        frontier: Seq<BindingView>,
        reply: Result<Seq<BindingView>, ExecutionErrorView>,
    ) -> bool {
        true
    }

    /// Whether a replica may give nodes these properties.
    open spec fn nodes_answer(
        &self,
        replica: ReplicaEndpointView,
        ids: Seq<NodeId>,
        reply: Result<Seq<(NodeId, NodeRecordView)>, ExecutionErrorView>,
    ) -> bool {
        true
    }

    /// Whether a replica may give edges these properties.
    open spec fn edges_answer(
        &self,
        replica: ReplicaEndpointView,
        ids: Seq<EdgeId>,
        reply: Result<Seq<(EdgeId, EdgeRecordView)>, ExecutionErrorView>,
    ) -> bool {
        true
    }

    fn resolve_start(&self, replica: &ReplicaEndpoint, step: &PlanStep) -> (r: Result<
        Vec<Binding>,
        ExecutionError,
    >)
        ensures
            self.start_answer(replica@, step@, query::rows_view(r)),
    ;

    fn resolve_all(&self, replica: &ReplicaEndpoint, step: &PlanStep) -> (r: Result<
        Vec<Binding>,
        ExecutionError,
    >)
        ensures
            self.all_answer(replica@, step@, query::rows_view(r)),
    ;

    fn expand_hop(&self, replica: &ReplicaEndpoint, step: &PlanStep, frontier: &Vec<Binding>) -> (r:
        Result<Frontier, ExecutionError>)
        ensures
            self.hop_answer(
                replica@,
                step@,
                text::views(frontier@),
                local_executor::frontier_view(r),
            ),
    ;

    fn check_anti_join(
        &self,
        replica: &ReplicaEndpoint,
        step: &AntiJoinStep,
        conditions: &Vec<PropertyFilter>,
        frontier: &Vec<Binding>,
    ) -> (r: Result<Vec<Binding>, ExecutionError>)
        ensures
            self.check_answer(
                replica@,
                step@,
                text::views(conditions@),
                text::views(frontier@),
                query::rows_view(r),
            ),
    ;

    fn get_node_properties(&self, replica: &ReplicaEndpoint, ids: &Vec<NodeId>) -> (r: Result<
        Vec<(NodeId, NodeRecord)>,
        ExecutionError,
    >)
        ensures
            self.nodes_answer(replica@, ids@, nodes_view(r)),
    ;

    fn get_edge_properties(&self, replica: &ReplicaEndpoint, ids: &Vec<EdgeId>) -> (r: Result<
        Vec<(EdgeId, EdgeRecord)>,
        ExecutionError,
    >)
        ensures
            self.edges_answer(replica@, ids@, edges_view(r)),
    ;
}

/// What a result stands for.
pub open spec fn nodes_view(r: Result<Vec<(NodeId, NodeRecord)>, ExecutionError>) -> Result<
    Seq<(NodeId, NodeRecordView)>,
    ExecutionErrorView,
> {
    match r {
        Ok(pairs) => Ok(node_pairs(pairs@)),
        Err(e) => Err(e@),
    }
}

/// What a result stands for.
pub open spec fn edges_view(r: Result<Vec<(EdgeId, EdgeRecord)>, ExecutionError>) -> Result<
    Seq<(EdgeId, EdgeRecordView)>,
    ExecutionErrorView,
> {
    match r {
        Ok(pairs) => Ok(edge_pairs(pairs@)),
        Err(e) => Err(e@),
    }
}

/// The rows of answers, one after the other, or the first error among them.
pub open spec fn gathered(replies: Seq<Result<Seq<BindingView>, ExecutionErrorView>>) -> Result<
    Seq<BindingView>,
    ExecutionErrorView,
>
    decreases replies.len(),
{
    if replies.len() == 0 {
        Ok(seq![])
    } else {
        match gathered(replies.drop_last()) {
            Err(e) => Err(e),
            Ok(rows) => match replies.last() {
                Err(e) => Err(e),
                Ok(more) => Ok(rows + more),
            },
        }
    }
}

/// The rows of a frontier, those that go on elsewhere last.
pub open spec fn all_rows(f: FrontierView) -> Seq<BindingView> {
    f.local + Seq::new(f.remote.len(), |i: int| f.remote[i].1)
}

/// The rows of an answer.
pub open spec fn flat(reply: Result<FrontierView, ExecutionErrorView>) -> Result<
    Seq<BindingView>,
    ExecutionErrorView,
> {
    match reply {
        Ok(f) => Ok(all_rows(f)),
        Err(e) => Err(e),
    }
}

pub open spec fn flat_all(replies: Seq<Result<FrontierView, ExecutionErrorView>>) -> Seq<
    Result<Seq<BindingView>, ExecutionErrorView>,
> {
    Seq::new(replies.len(), |i: int| flat(replies[i]))
}

/// The replicas that a start is asked of: one for each known partition that
/// has a healthy one.
pub open spec fn broadcast_targets(map: PartitionMap, known: Seq<u64>) -> Seq<ReplicaEndpointView>
    decreases known.len(),
{
    if known.len() == 0 {
        seq![]
    } else {
        let rest = broadcast_targets(map, known.drop_last());
        match map.choice(known.last() as u32) {
            Some(replica) => rest.push(replica),
            None => rest,
        }
    }
}

/// The rows that a start is resolved to, given what the replicas answered.
pub open spec fn start_outcome(
    replies: Seq<Result<Seq<BindingView>, ExecutionErrorView>>,
) -> Result<Seq<BindingView>, ExecutionErrorView> {
    match gathered(replies) {
        Ok(rows) => Ok(routing::distinct(rows)),
        Err(e) => Err(e),
    }
}

/// The rows one hop further, given what the replicas answered.
pub open spec fn round_outcome(
    map: PartitionMap,
    rows: Seq<BindingView>,
    alias: Seq<char>,
    n: u32,
    replies: Seq<Result<FrontierView, ExecutionErrorView>>,
) -> Result<Seq<BindingView>, ExecutionErrorView> {
    match routing::row_routes(map, rows, alias, n) {
        Err(e) => Err(e),
        Ok(_) => gathered(flat_all(replies)),
    }
}

/// The step of one round of a hop: one hop, without filters. From the second
/// round on it starts where the one before ended.
pub open spec fn round_step(hop: ExpandHopView, k: nat) -> ExpandHopView {
    ExpandHopView {
        from_alias: cursor(hop, k),
        to_alias: hop.to_alias,
        to_label: None,
        edge_type: hop.edge_type,
        direction: hop.direction,
        hops: HopRange { min: 1, max: 1 },
        filters: seq![],
        edge_alias: if local_executor::binds_edge(hop) {
            hop.edge_alias
        } else {
            None
        },
    }
}

/// The alias that round `k` of a hop starts from.
pub open spec fn cursor(hop: ExpandHopView, k: nat) -> Seq<char> {
    if k <= 1 {
        hop.from_alias
    } else {
        hop.to_alias
    }
}

/// Where a hop stands after `k` rounds: the current rows, and those that were
/// accepted so far. Without current rows no further round takes place.
pub open spec fn hop_run(
    map: PartitionMap,
    n: u32,
    hop: ExpandHopView,
    frontier: Seq<BindingView>,
    rounds: Seq<Seq<Result<FrontierView, ExecutionErrorView>>>,
    k: nat,
) -> Result<(Seq<BindingView>, Seq<BindingView>), ExecutionErrorView>
    decreases k,
{
    if k == 0 {
        Ok((frontier, seq![]))
    } else {
        match hop_run(map, n, hop, frontier, rounds, (k - 1) as nat) {
            Err(e) => Err(e),
            Ok((current, accepted)) => if current.len() == 0 {
                Ok((current, accepted))
            } else {
                match round_outcome(map, current, cursor(hop, k), n, rounds[k - 1]) {
                    Err(e) => Err(e),
                    Ok(next) => Ok(
                        (
                            next,
                            if k >= hop.hops.min {
                                walk::union_new(accepted, next)
                            } else {
                                accepted
                            },
                        ),
                    ),
                }
            },
        }
    }
}

/// The rows of a hop, before filters.
pub open spec fn hop_outcome(
    map: PartitionMap,
    n: u32,
    hop: ExpandHopView,
    frontier: Seq<BindingView>,
    rounds: Seq<Seq<Result<FrontierView, ExecutionErrorView>>>,
) -> Result<Seq<BindingView>, ExecutionErrorView> {
    match hop_run(map, n, hop, frontier, rounds, hop.hops.max as nat) {
        Ok((_, accepted)) => Ok(accepted),
        Err(e) => Err(e),
    }
}

/// The records of nodes in answers, or the first error among them.
pub open spec fn gathered_nodes(
    replies: Seq<Result<Seq<(NodeId, NodeRecordView)>, ExecutionErrorView>>,
) -> Result<Map<u64, NodeRecordView>, ExecutionErrorView>
    decreases replies.len(),
{
    if replies.len() == 0 {
        Ok(Map::empty())
    } else {
        match gathered_nodes(replies.drop_last()) {
            Err(e) => Err(e),
            Ok(m) => match replies.last() {
                Err(e) => Err(e),
                Ok(more) => Ok(with_nodes(m, more)),
            },
        }
    }
}

pub open spec fn with_nodes(m: Map<u64, NodeRecordView>, more: Seq<(NodeId, NodeRecordView)>) -> Map<
    u64,
    NodeRecordView,
>
    decreases more.len(),
{
    if more.len() == 0 {
        m
    } else {
        with_nodes(m, more.drop_last()).insert(more.last().0.0, more.last().1)
    }
}

/// The records of edges in answers, or the first error among them.
pub open spec fn gathered_edges(
    replies: Seq<Result<Seq<(EdgeId, EdgeRecordView)>, ExecutionErrorView>>,
) -> Result<Map<u64, EdgeRecordView>, ExecutionErrorView>
    decreases replies.len(),
{
    if replies.len() == 0 {
        Ok(Map::empty())
    } else {
        match gathered_edges(replies.drop_last()) {
            Err(e) => Err(e),
            Ok(m) => match replies.last() {
                Err(e) => Err(e),
                Ok(more) => Ok(with_edges(m, more)),
            },
        }
    }
}

pub open spec fn with_edges(m: Map<u64, EdgeRecordView>, more: Seq<(EdgeId, EdgeRecordView)>) -> Map<
    u64,
    EdgeRecordView,
>
    decreases more.len(),
{
    if more.len() == 0 {
        m
    } else {
        with_edges(m, more.drop_last()).insert(more.last().0.0, more.last().1)
    }
}

/// What replicas answered when records were fetched.
pub struct Fetched {
    pub nodes: Seq<Result<Seq<(NodeId, NodeRecordView)>, ExecutionErrorView>>,
    pub edges: Seq<Result<Seq<(EdgeId, EdgeRecordView)>, ExecutionErrorView>>,
}

/// The records in answers, or the first error among them.
pub open spec fn gathered_records(fetched: Fetched) -> Result<RecordsView, ExecutionErrorView> {
    match gathered_nodes(fetched.nodes) {
        Err(e) => Err(e),
        Ok(nodes) => match gathered_edges(fetched.edges) {
            Err(e) => Err(e),
            Ok(edges) => Ok(RecordsView { nodes, edges }),
        },
    }
}

/// The rows that meet conditions, given what was fetched for them.
pub open spec fn filter_outcome(
    rows: Seq<BindingView>,
    conditions: Seq<(Seq<char>, PropertyFilterView)>,
    fetched: Fetched,
) -> Result<Seq<BindingView>, ExecutionErrorView> {
    if conditions.len() == 0 || rows.len() == 0 {
        Ok(rows)
    } else {
        match gathered_records(fetched) {
            Err(e) => Err(e),
            Ok(records) => Ok(hydration::keep_meeting(rows, conditions, records)),
        }
    }
}

/// What the replica that owns a row is asked about it in a `NOT EXISTS`; none
/// where the conditions have no value for the row.
pub open spec fn anti_key(b: BindingView, step: AntiJoinStepView, n: u32, records: RecordsView) -> Option<
    (u32, Seq<PropertyFilterView>),
> {
    match hydration::resolved_conditions(b, step, records) {
        Some(conditions) => Some(
            (
                crate::schema::partitioning::owner(b.nodes[step.from_alias], n),
                conditions,
            ),
        ),
        None => None,
    }
}

pub open spec fn anti_keys(
    rows: Seq<BindingView>,
    step: AntiJoinStepView,
    n: u32,
    records: RecordsView,
) -> Seq<Option<(u32, Seq<PropertyFilterView>)>> {
    Seq::new(rows.len(), |i: int| anti_key(rows[i], step, n, records))
}

/// Which replica is asked about which rows under which conditions: one call
/// for the rows of a partition that share their conditions.
pub open spec fn anti_routes(
    map: PartitionMap,
    classes: Seq<Option<(u32, Seq<PropertyFilterView>)>>,
    rows: Seq<BindingView>,
    keys: Seq<Option<(u32, Seq<PropertyFilterView>)>>,
) -> Seq<(ReplicaEndpointView, Seq<PropertyFilterView>, Seq<BindingView>)>
    decreases classes.len(),
{
    if classes.len() == 0 {
        seq![]
    } else {
        let rest = anti_routes(map, classes.drop_last(), rows, keys);
        match classes.last() {
            Some((partition, conditions)) => match map.choice(partition) {
                Some(replica) => rest.push(
                    (replica, conditions, routing::members(rows, keys, classes.last())),
                ),
                None => rest,
            },
            None => rest,
        }
    }
}

/// The rows that a `NOT EXISTS` leaves, given what was fetched and what the
/// replicas answered.
pub open spec fn anti_outcome(
    map: PartitionMap,
    n: u32,
    step: AntiJoinStepView,
    rows: Seq<BindingView>,
    fetched: Fetched,
    replies: Seq<Result<Seq<BindingView>, ExecutionErrorView>>,
) -> Result<Seq<BindingView>, ExecutionErrorView> {
    match gathered_records(fetched) {
        Err(e) => Err(e),
        Ok(records) => if !local_executor::all_bind(rows, step.from_alias) {
            Err(ExecutionErrorView::UnknownAlias(step.from_alias))
        } else {
            match gathered(replies) {
                Err(e) => Err(e),
                Ok(left) => Ok(
                    routing::members(rows, anti_keys(rows, step, n, records), None) + left,
                ),
            }
        },
    }
}

/// What replicas answered while a step was executed.
pub struct StepRun {
    pub rounds: Seq<Seq<Result<FrontierView, ExecutionErrorView>>>,
    pub fetched: Fetched,
    pub checks: Seq<Result<Seq<BindingView>, ExecutionErrorView>>,
}

/// The conditions of a hop on the node that it leads to.
pub open spec fn hop_conditions(hop: ExpandHopView) -> Seq<(Seq<char>, PropertyFilterView)> {
    Seq::new(hop.filters.len(), |i: int| (hop.to_alias, hop.filters[i]))
}

/// The rows after a step that is not the first.
pub open spec fn step_outcome(
    map: PartitionMap,
    n: u32,
    step: PlanStepView,
    rows: Seq<BindingView>,
    run: StepRun,
) -> Result<Seq<BindingView>, ExecutionErrorView> {
    match step {
        PlanStepView::ExpandHop(hop) => match hop_outcome(map, n, hop, rows, run.rounds) {
            Err(e) => Err(e),
            Ok(reached) => filter_outcome(reached, hop_conditions(hop), run.fetched),
        },
        PlanStepView::AntiJoin(anti) => anti_outcome(
            map,
            n,
            anti,
            rows,
            run.fetched,
            run.checks,
        ),
        _ => Err(
            ExecutionErrorView::UnknownAlias(
                "every plan step after the first must be ExpandHop or AntiJoin"@,
            ),
        ),
    }
}

/// What replicas answered while a plan was executed.
pub struct PlanRun {
    pub start: Seq<Result<Seq<BindingView>, ExecutionErrorView>>,
    pub steps: Seq<StepRun>,
    pub last: Fetched,
}

/// The rows after the first step and `k` more.
pub open spec fn rows_after(
    map: PartitionMap,
    n: u32,
    plan: QueryPlanView,
    run: PlanRun,
    k: nat,
) -> Result<Seq<BindingView>, ExecutionErrorView>
    decreases k,
{
    if k == 0 {
        start_outcome(run.start)
    } else {
        match rows_after(map, n, plan, run, (k - 1) as nat) {
            Err(e) => Err(e),
            Ok(rows) => step_outcome(map, n, plan.steps[k as int], rows, run.steps[k - 1]),
        }
    }
}

/// The rows of a plan, each once, given what the replicas answered.
pub open spec fn plan_outcome(
    map: PartitionMap,
    n: u32,
    plan: QueryPlanView,
    run: PlanRun,
) -> Result<Seq<BindingView>, ExecutionErrorView> {
    if plan.steps.len() == 0 {
        Err(
            ExecutionErrorView::UnknownAlias("a plan always has at least a ResolveStart step"@),
        )
    } else {
        match rows_after(map, n, plan, run, (plan.steps.len() - 1) as nat) {
            Err(e) => Err(e),
            Ok(rows) => match filter_outcome(rows, plan.remaining, run.last) {
                Err(e) => Err(e),
                Ok(kept) => Ok(routing::distinct(kept)),
            },
        }
    }
}

/// That a replica was asked for a start, and answered so: by `resolve_all` for
/// a start by its label alone, by `resolve_start` otherwise.
pub open spec fn asked_one_start<R: PartitionRpc>(
    rpc: R,
    replica: ReplicaEndpointView,
    step: PlanStepView,
    reply: Result<Seq<BindingView>, ExecutionErrorView>,
) -> bool {
    if step is ResolveAll {
        rpc.all_answer(replica, step, reply)
    } else {
        rpc.start_answer(replica, step, reply)
    }
}

/// That every replica of `targets` was asked for a start, up to the first
/// that failed, and answered so.
pub open spec fn asked_start<R: PartitionRpc>(
    rpc: R,
    targets: Seq<ReplicaEndpointView>,
    step: PlanStepView,
    replies: Seq<Result<Seq<BindingView>, ExecutionErrorView>>,
) -> bool {
    &&& replies.len() <= targets.len()
    &&& gathered(replies) is Ok ==> replies.len() == targets.len()
    &&& forall|i: int|
        0 <= i < replies.len() ==> asked_one_start(rpc, targets[i], step, #[trigger] replies[i])
}

/// That every route was asked for a step, up to the first that failed, and
/// answered so.
pub open spec fn asked_round<R: PartitionRpc>(
    rpc: R,
    routes: Seq<(ReplicaEndpointView, Seq<BindingView>)>,
    step: PlanStepView,
    replies: Seq<Result<FrontierView, ExecutionErrorView>>,
) -> bool {
    &&& replies.len() <= routes.len()
    &&& gathered(flat_all(replies)) is Ok ==> replies.len() == routes.len()
    &&& forall|i: int|
        0 <= i < replies.len() ==> rpc.hop_answer(
            routes[i].0,
            step,
            routes[i].1,
            #[trigger] replies[i],
        )
}

/// That round `k` of a hop was asked where the rows before it go, and answered
/// so.
pub open spec fn asked_kth_round<R: PartitionRpc>(
    rpc: R,
    map: PartitionMap,
    n: u32,
    hop: ExpandHopView,
    frontier: Seq<BindingView>,
    rounds: Seq<Seq<Result<FrontierView, ExecutionErrorView>>>,
    k: nat,
) -> bool {
    hop_run(map, n, hop, frontier, rounds, (k - 1) as nat) matches Ok((current, _)) ==> (
    current.len() > 0 ==> k <= rounds.len() && (routing::row_routes(
        map,
        current,
        cursor(hop, k),
        n,
    ) matches Ok(routes) ==> asked_round(
        rpc,
        routes,
        PlanStepView::ExpandHop(round_step(hop, k)),
        rounds[k - 1],
    )))
}

/// That all rounds of a hop were asked, and answered so.
pub open spec fn asked_hop<R: PartitionRpc>(
    rpc: R,
    map: PartitionMap,
    n: u32,
    hop: ExpandHopView,
    frontier: Seq<BindingView>,
    rounds: Seq<Seq<Result<FrontierView, ExecutionErrorView>>>,
) -> bool {
    forall|k: nat|
        1 <= k <= hop.hops.max ==> #[trigger] asked_kth_round(
            rpc,
            map,
            n,
            hop,
            frontier,
            rounds,
            k,
        )
}

/// That the owners of nodes were asked for their properties, and answered so.
pub open spec fn asked_nodes<R: PartitionRpc>(
    rpc: R,
    routes: Seq<(ReplicaEndpointView, Seq<NodeId>)>,
    replies: Seq<Result<Seq<(NodeId, NodeRecordView)>, ExecutionErrorView>>,
) -> bool {
    &&& replies.len() <= routes.len()
    &&& gathered_nodes(replies) is Ok ==> replies.len() == routes.len()
    &&& forall|i: int|
        0 <= i < replies.len() ==> rpc.nodes_answer(
            routes[i].0,
            routes[i].1,
            #[trigger] replies[i],
        )
}

/// That the owners of edges were asked for their properties, and answered so.
pub open spec fn asked_edges<R: PartitionRpc>(
    rpc: R,
    routes: Seq<(ReplicaEndpointView, Seq<EdgeAt>)>,
    replies: Seq<Result<Seq<(EdgeId, EdgeRecordView)>, ExecutionErrorView>>,
) -> bool {
    &&& replies.len() <= routes.len()
    &&& gathered_edges(replies) is Ok ==> replies.len() == routes.len()
    &&& forall|i: int|
        0 <= i < replies.len() ==> rpc.edges_answer(
            routes[i].0,
            routes[i].1.map_values(|e: EdgeAt| e.edge),
            #[trigger] replies[i],
        )
}

/// That the properties of what rows bind some aliases to were asked for, and
/// answered so.
pub open spec fn asked_records<R: PartitionRpc>(
    rpc: R,
    map: PartitionMap,
    n: u32,
    rows: Seq<BindingView>,
    aliases: Seq<Seq<char>>,
    steps: Seq<PlanStepView>,
    fetched: Fetched,
) -> bool {
    let ids = hydration::nodes_needed(rows, aliases);
    let edges = hydration::edges_needed(rows, aliases, steps);
    &&& asked_nodes(rpc, routing::routes_of(map, ids, routing::node_owners(ids, n)), fetched.nodes)
    &&& gathered_nodes(fetched.nodes) is Ok ==> asked_edges(
        rpc,
        routing::routes_of(map, edges, routing::edge_owners(edges, n)),
        fetched.edges,
    )
}

/// That the properties that conditions on rows need were asked for, and
/// answered so.
pub open spec fn asked_filter<R: PartitionRpc>(
    rpc: R,
    map: PartitionMap,
    n: u32,
    rows: Seq<BindingView>,
    conditions: Seq<(Seq<char>, PropertyFilterView)>,
    steps: Seq<PlanStepView>,
    fetched: Fetched,
) -> bool {
    conditions.len() > 0 && rows.len() > 0 ==> asked_records(
        rpc,
        map,
        n,
        rows,
        hydration::condition_aliases(conditions),
        steps,
        fetched,
    )
}

/// That the calls of a `NOT EXISTS` were made, and answered so.
pub open spec fn asked_checks<R: PartitionRpc>(
    rpc: R,
    step: AntiJoinStepView,
    routes: Seq<(ReplicaEndpointView, Seq<PropertyFilterView>, Seq<BindingView>)>,
    replies: Seq<Result<Seq<BindingView>, ExecutionErrorView>>,
) -> bool {
    &&& replies.len() <= routes.len()
    &&& gathered(replies) is Ok ==> replies.len() == routes.len()
    &&& forall|i: int|
        0 <= i < replies.len() ==> rpc.check_answer(
            routes[i].0,
            step,
            routes[i].1,
            routes[i].2,
            #[trigger] replies[i],
        )
}

/// That what a `NOT EXISTS` needs was asked for, and answered so.
pub open spec fn asked_anti<R: PartitionRpc>(
    rpc: R,
    map: PartitionMap,
    n: u32,
    step: AntiJoinStepView,
    rows: Seq<BindingView>,
    steps: Seq<PlanStepView>,
    fetched: Fetched,
    replies: Seq<Result<Seq<BindingView>, ExecutionErrorView>>,
) -> bool {
    &&& asked_records(
        rpc,
        map,
        n,
        rows,
        hydration::outer_aliases(step.outer_conditions),
        steps,
        fetched,
    )
    &&& gathered_records(fetched) matches Ok(records) ==> (local_executor::all_bind(
        rows,
        step.from_alias,
    ) ==> ({
        let keys = anti_keys(rows, step, n, records);
        asked_checks(rpc, step, anti_routes(map, routing::distinct(keys), rows, keys), replies)
    }))
}

/// That what a step needs was asked for, and answered so.
pub open spec fn asked_step<R: PartitionRpc>(
    rpc: R,
    map: PartitionMap,
    n: u32,
    step: PlanStepView,
    rows: Seq<BindingView>,
    steps: Seq<PlanStepView>,
    run: StepRun,
) -> bool {
    match step {
        PlanStepView::ExpandHop(hop) => {
            &&& asked_hop(rpc, map, n, hop, rows, run.rounds)
            &&& hop_outcome(map, n, hop, rows, run.rounds) matches Ok(reached) ==> asked_filter(
                rpc,
                map,
                n,
                reached,
                hop_conditions(hop),
                steps,
                run.fetched,
            )
        },
        PlanStepView::AntiJoin(anti) => asked_anti(
            rpc,
            map,
            n,
            anti,
            rows,
            steps,
            run.fetched,
            run.checks,
        ),
        _ => true,
    }
}

/// That step `k` of a plan was asked for the rows before it, and answered so.
pub open spec fn asked_kth_step<R: PartitionRpc>(
    rpc: R,
    map: PartitionMap,
    n: u32,
    plan: QueryPlanView,
    run: PlanRun,
    k: nat,
) -> bool {
    rows_after(map, n, plan, run, (k - 1) as nat) matches Ok(rows) ==> k <= run.steps.len()
        && asked_step(rpc, map, n, plan.steps[k as int], rows, plan.steps, run.steps[k - 1])
}

/// That what a plan needs was asked of the replicas that have it, step by
/// step, and answered so.
pub open spec fn asked_plan<R: PartitionRpc>(
    rpc: R,
    map: PartitionMap,
    n: u32,
    plan: QueryPlanView,
    run: PlanRun,
) -> bool {
    plan.steps.len() > 0 ==> {
        &&& asked_start(rpc, broadcast_targets(map, map.known()), plan.steps[0], run.start)
        &&& forall|k: nat|
            1 <= k < plan.steps.len() ==> #[trigger] asked_kth_step(rpc, map, n, plan, run, k)
        &&& rows_after(map, n, plan, run, (plan.steps.len() - 1) as nat) matches Ok(rows)
            ==> asked_filter(rpc, map, n, rows, plan.remaining, plan.steps, run.last)
    }
}

/// Rows without those that occurred before.
pub fn dedup(rows: Vec<Binding>) -> (r: Vec<Binding>)
    ensures
        text::views(r@) == routing::distinct(text::views(rows@)),
{
    let mut kept: Vec<Binding> = Vec::new();
    assert(text::views(kept@) =~= Seq::<BindingView>::empty());
    accept(&mut kept, &rows);
    kept
}

/// Takes up the rows that are not there yet.
pub fn accept(kept: &mut Vec<Binding>, rows: &Vec<Binding>)
    ensures
        text::views(final(kept)@) == walk::union_new(text::views(old(kept)@), text::views(rows@)),
{
    let ghost before = text::views(kept@);
    let ghost all = text::views(rows@);
    let mut i: usize = 0;
    assert(all.take(0) =~= Seq::<BindingView>::empty());
    while i < rows.len()
        invariant
            i <= rows@.len(),
            all == text::views(rows@),
            text::views(kept@) == walk::union_new(before, all.take(i as int)),
        decreases rows.len() - i,
    {
        assert(all.take(i + 1).drop_last() =~= all.take(i as int));
        assert(all.take(i + 1).last() == rows@[i as int]@);
        let b = &rows[i];
        let ghost there = text::views(kept@);
        let mut known = false;
        let mut j: usize = 0;
        while j < kept.len() && !known
            invariant
                j <= kept@.len(),
                there == text::views(kept@),
                known == exists|x: int| 0 <= x < j && #[trigger] there[x] == b@,
            decreases kept.len() - j,
        {
            assert(there[j as int] == kept@[j as int]@);
            if kept[j].same(b) {
                assert(there[j as int] == b@);
                known = true;
            }
            j = j + 1;
        }
        assert(known == there.contains(b@));
        if !known {
            let x = b.duplicate();
            proof {
                text::lemma_views_push(kept@, x);
            }
            kept.push(x);
        }
        i = i + 1;
    }
    assert(all.take(all.len() as int) =~= all);
}

/// The rows of a frontier, those that go on elsewhere last.
pub fn flatten(f: Frontier) -> (r: Vec<Binding>)
    ensures
        text::views(r@) == all_rows(f@),
{
    let Frontier { local, remote } = f;
    let ghost first = text::views(local@);
    let ghost more = query::remote_views(remote@);
    let ghost rest = Seq::new(more.len(), |i: int| more[i].1);
    let mut rows = local;
    assert(first + rest.take(0) =~= first);
    for x in it: remote
        invariant
            it.seq().len() == more.len(),
            forall|i: int|
                0 <= i < more.len() ==> more[i] == ((#[trigger] it.seq()[i]).0, it.seq()[i].1@),
            rest == Seq::new(more.len(), |i: int| more[i].1),
            text::views(rows@) == first + rest.take(it.index()),
    {
        let ghost i = it.index();
        let (_, b) = x;
        proof {
            text::lemma_views_push(rows@, b);
            assert((first + rest.take(i)).push(b@) =~= first + rest.take(i + 1));
        }
        rows.push(b);
    }
    assert(rest.take(rest.len() as int) =~= rest);
    rows
}

/// The replicas that a start is asked of.
pub fn targets(map: &PartitionMap) -> (r: Vec<ReplicaEndpoint>)
    requires
        map.wf(),
    ensures
        text::views(r@) == broadcast_targets(*map, map.known()),
{
    let ghost known = map.known();
    let mut found: Vec<ReplicaEndpoint> = Vec::new();
    let mut i: usize = 0;
    assert(known.take(0) =~= Seq::<u64>::empty());
    assert(text::views(found@) =~= Seq::<ReplicaEndpointView>::empty());
    while i < map.replicas_by_partition.len()
        invariant
            i <= known.len(),
            map.wf(),
            known == map.known(),
            text::views(found@) == broadcast_targets(*map, known.take(i as int)),
        decreases known.len() - i,
    {
        assert(known.take(i + 1).drop_last() =~= known.take(i as int));
        assert(known.take(i + 1).last() == known[i as int]);
        let k: u64 = map.replicas_by_partition.key(i);
        if let Some(replica) = map.pick_replica(PartitionId(k as u32)) {
            let x = replica.duplicate();
            proof {
                text::lemma_views_push(found@, x);
            }
            found.push(x);
        }
        i = i + 1;
    }
    assert(known.take(known.len() as int) =~= known);
    found
}

pub open spec fn node_pairs(pairs: Seq<(NodeId, NodeRecord)>) -> Seq<(NodeId, NodeRecordView)> {
    Seq::new(pairs.len(), |i: int| (pairs[i].0, pairs[i].1@))
}

pub open spec fn edge_pairs(pairs: Seq<(EdgeId, EdgeRecord)>) -> Seq<(EdgeId, EdgeRecordView)> {
    Seq::new(pairs.len(), |i: int| (pairs[i].0, pairs[i].1@))
}

/// Takes up the records of nodes in an answer.
pub fn add_nodes(records: &mut IdMap<NodeRecord>, pairs: Vec<(NodeId, NodeRecord)>)
    requires
        old(records).wf(),
    ensures
        final(records).wf(),
        builder::node_record_views(final(records).map()) == with_nodes(
            builder::node_record_views(old(records).map()),
            node_pairs(pairs@),
        ),
{
    let ghost before = builder::node_record_views(records.map());
    let ghost all = node_pairs(pairs@);
    assert(all.take(0) =~= Seq::<(NodeId, NodeRecordView)>::empty());
    for x in it: pairs
        invariant
            it.seq().len() == all.len(),
            forall|i: int|
                0 <= i < all.len() ==> all[i] == ((#[trigger] it.seq()[i]).0, it.seq()[i].1@),
            records.wf(),
            builder::node_record_views(records.map()) == with_nodes(
                before,
                all.take(it.index()),
            ),
    {
        let ghost i = it.index();
        assert(all.take(i + 1).drop_last() =~= all.take(i));
        let (id, record) = x;
        assert(all.take(i + 1).last() == (id, record@));
        let ghost m = records.map();
        records.insert(id.0, record);
        assert(builder::node_record_views(m.insert(id.0, record)) =~= builder::node_record_views(
            m,
        ).insert(id.0, record@));
    }
    assert(all.take(all.len() as int) =~= all);
}

/// Takes up the records of edges in an answer.
pub fn add_edges(records: &mut IdMap<EdgeRecord>, pairs: Vec<(EdgeId, EdgeRecord)>)
    requires
        old(records).wf(),
    ensures
        final(records).wf(),
        builder::edge_record_views(final(records).map()) == with_edges(
            builder::edge_record_views(old(records).map()),
            edge_pairs(pairs@),
        ),
{
    let ghost before = builder::edge_record_views(records.map());
    let ghost all = edge_pairs(pairs@);
    assert(all.take(0) =~= Seq::<(EdgeId, EdgeRecordView)>::empty());
    for x in it: pairs
        invariant
            it.seq().len() == all.len(),
            forall|i: int|
                0 <= i < all.len() ==> all[i] == ((#[trigger] it.seq()[i]).0, it.seq()[i].1@),
            records.wf(),
            builder::edge_record_views(records.map()) == with_edges(
                before,
                all.take(it.index()),
            ),
    {
        let ghost i = it.index();
        assert(all.take(i + 1).drop_last() =~= all.take(i));
        let (id, record) = x;
        assert(all.take(i + 1).last() == (id, record@));
        let ghost m = records.map();
        records.insert(id.0, record);
        assert(builder::edge_record_views(m.insert(id.0, record)) =~= builder::edge_record_views(
            m,
        ).insert(id.0, record@));
    }
    assert(all.take(all.len() as int) =~= all);
}

/// A call of a `NOT EXISTS`: whom to ask, and about which rows under which
/// conditions.
#[derive(Debug)]
pub struct AntiCall {
    pub replica: ReplicaEndpoint,
    pub conditions: Vec<PropertyFilter>,
    pub rows: Vec<Binding>,
}

pub open spec fn anti_call_views(calls: Seq<AntiCall>) -> Seq<
    (ReplicaEndpointView, Seq<PropertyFilterView>, Seq<BindingView>),
> {
    Seq::new(
        calls.len(),
        |i: int|
            (
                calls[i].replica@,
                text::views(calls[i].conditions@),
                text::views(calls[i].rows@),
            ),
    )
}

/// The calls of a `NOT EXISTS`, and the rows that need none.
#[derive(Debug)]
pub struct AntiPlan {
    pub kept: Vec<Binding>,
    pub calls: Vec<AntiCall>,
}

/// A class of rows: the partition that owns them and their conditions.
type AntiClass = Option<(u32, Vec<PropertyFilter>)>;

spec fn class_view(c: AntiClass) -> Option<(u32, Seq<PropertyFilterView>)> {
    match c {
        Some((p, filters)) => Some((p, text::views(filters@))),
        None => None,
    }
}

spec fn class_views(cs: Seq<AntiClass>) -> Seq<Option<(u32, Seq<PropertyFilterView>)>> {
    Seq::new(cs.len(), |i: int| class_view(cs[i]))
}

fn same_class(a: &AntiClass, b: &AntiClass) -> (r: bool)
    ensures
        r == (class_view(*a) == class_view(*b)),
{
    match (a, b) {
        (Some((p, x)), Some((q, y))) => *p == *q && hydration::same_filters(x, y),
        (None, None) => true,
        _ => false,
    }
}

/// The place of a class among those known so far, which it joins if it is new.
fn class_index(classes: &mut Vec<AntiClass>, c: AntiClass) -> (r: usize)
    requires
        class_views(old(classes)@).no_duplicates(),
    ensures
        class_views(final(classes)@) == walk::push_new(class_views(old(classes)@), class_view(c)),
        class_views(final(classes)@).no_duplicates(),
        r < final(classes)@.len(),
        class_views(final(classes)@)[r as int] == class_view(c),
        final(classes)@.len() >= old(classes)@.len(),
        forall|i: int|
            0 <= i < old(classes)@.len() ==> class_views(final(classes)@)[i] == class_views(
                old(classes)@,
            )[i],
{
    let ghost before = class_views(classes@);
    let mut i: usize = 0;
    while i < classes.len()
        invariant
            i <= classes@.len(),
            before == class_views(classes@),
            before.no_duplicates(),
            forall|k: int| 0 <= k < i ==> #[trigger] before[k] != class_view(c),
        decreases classes.len() - i,
    {
        assert(before[i as int] == class_view(classes@[i as int]));
        if same_class(&classes[i], &c) {
            assert(before.contains(class_view(c)));
            return i;
        }
        i = i + 1;
    }
    assert(!before.contains(class_view(c)));
    proof {
        walk::lemma_push_new(before, class_view(c), class_view(c));
        assert(class_views(classes@.push(c)) =~= before.push(class_view(c)));
    }
    classes.push(c);
    i
}

proof fn lemma_members_by_class<T, K>(items: Seq<T>, ids: Seq<usize>, keys: Seq<K>, id: usize, k: K)
    requires
        items.len() == ids.len(),
        items.len() == keys.len(),
        forall|i: int| 0 <= i < items.len() ==> (#[trigger] ids[i] == id <==> keys[i] == k),
    ensures
        routing::members(items, ids, id) == routing::members(items, keys, k),
    decreases items.len(),
{
    if items.len() > 0 {
        let si = ids.drop_last();
        let sk = keys.drop_last();
        assert forall|i: int| 0 <= i < items.len() - 1 implies (#[trigger] si[i] == id <==> sk[i]
            == k) by {
            assert(si[i] == ids[i]);
        }
        lemma_members_by_class(items.drop_last(), si, sk, id, k);
        assert(ids[items.len() - 1] == ids.last());
    }
}

proof fn lemma_members_none<T, K>(items: Seq<T>, keys: Seq<K>, k: K)
    requires
        items.len() == keys.len(),
        !keys.contains(k),
    ensures
        routing::members(items, keys, k) == Seq::<T>::empty(),
    decreases items.len(),
{
    if items.len() > 0 {
        let sk = keys.drop_last();
        if sk.contains(k) {
            let i = choose|i: int| 0 <= i < sk.len() && sk[i] == k;
            assert(keys[i] == k);
        }
        assert(keys[keys.len() - 1] == keys.last());
        lemma_members_none(items.drop_last(), sk, k);
    }
}

/// Plans the calls of a `NOT EXISTS`.
pub fn plan_anti_join(
    map: &PartitionMap,
    hasher: &PartitionHasher,
    step: &AntiJoinStep,
    rows: &Vec<Binding>,
    records: &Records,
) -> (r: Result<AntiPlan, ExecutionError>)
    requires
        map.wf(),
        hasher.n_partitions > 0,
        records.wf(),
    ensures
        match r {
            Ok(plan) => ({
                let all = text::views(rows@);
                let keys = anti_keys(all, step@, hasher.n_partitions, records@);
                &&& local_executor::all_bind(all, step@.from_alias)
                &&& text::views(plan.kept@) == routing::members(all, keys, None)
                &&& anti_call_views(plan.calls@) == anti_routes(
                    *map,
                    routing::distinct(keys),
                    all,
                    keys,
                )
            }),
            Err(e) => !local_executor::all_bind(text::views(rows@), step@.from_alias) && e@
                == ExecutionErrorView::UnknownAlias(step@.from_alias),
        },
{
    let ghost all = text::views(rows@);
    let ghost n = hasher.n_partitions;
    let ghost keys = anti_keys(all, step@, n, records@);
    let owners = match routing::owners_of_rows(hasher, rows, &step.from_alias) {
        Ok(owners) => owners,
        Err(e) => {
            return Err(e);
        },
    };
    let mut classes: Vec<AntiClass> = Vec::new();
    let mut ids: Vec<usize> = Vec::new();
    let mut i: usize = 0;
    assert(class_views(classes@) =~= Seq::<Option<(u32, Seq<PropertyFilterView>)>>::empty());
    assert(keys.take(0) =~= Seq::<Option<(u32, Seq<PropertyFilterView>)>>::empty());
    while i < rows.len()
        invariant
            i <= rows@.len(),
            records.wf(),
            all == text::views(rows@),
            n == hasher.n_partitions,
            keys == anti_keys(all, step@, n, records@),
            owners@ == routing::row_owners(all, step@.from_alias, n),
            ids@.len() == i,
            class_views(classes@) == routing::distinct(keys.take(i as int)),
            class_views(classes@).no_duplicates(),
            forall|k: int|
                0 <= k < i ==> (#[trigger] ids@[k]) < classes@.len() && class_views(
                    classes@,
                )[ids@[k] as int] == keys[k],
        decreases rows.len() - i,
    {
        assert(keys.take(i + 1).drop_last() =~= keys.take(i as int));
        let class = match hydration::resolve_conditions(&rows[i], step, records) {
            Some(conditions) => Some((owners[i], conditions)),
            None => None,
        };
        assert(all[i as int] == rows@[i as int]@);
        assert(class_view(class) == keys[i as int]);
        let ghost before = class_views(classes@);
        let ghost ids_before = ids@;
        let id = class_index(&mut classes, class);
        ids.push(id);
        assert forall|k: int| 0 <= k < i + 1 implies (#[trigger] ids@[k]) < classes@.len()
            && class_views(classes@)[ids@[k] as int] == keys[k] by {
            if k < i {
                assert(ids@[k] == ids_before[k]);
                assert(before[ids@[k] as int] == keys[k]);
                assert(class_views(classes@)[ids@[k] as int] == before[ids@[k] as int]);
            }
        }
        i = i + 1;
    }
    assert(keys.take(keys.len() as int) =~= keys);
    let ghost kinds = class_views(classes@);
    let mut kept: Vec<Binding> = Vec::new();
    let mut calls: Vec<AntiCall> = Vec::new();
    let mut c: usize = 0;
    let ghost mut met_none = false;
    assert(kinds.take(0) =~= Seq::<Option<(u32, Seq<PropertyFilterView>)>>::empty());
    assert(anti_call_views(calls@) =~= Seq::<
        (ReplicaEndpointView, Seq<PropertyFilterView>, Seq<BindingView>),
    >::empty());
    assert(text::views(kept@) =~= Seq::<BindingView>::empty());
    while c < classes.len()
        invariant
            c <= classes@.len(),
            map.wf(),
            all == text::views(rows@),
            kinds == class_views(classes@),
            kinds == routing::distinct(keys),
            kinds.no_duplicates(),
            keys.len() == all.len(),
            ids@.len() == all.len(),
            forall|k: int|
                0 <= k < all.len() ==> (#[trigger] ids@[k]) < kinds.len() && kinds[ids@[k] as int]
                    == keys[k],
            met_none == exists|k: int| 0 <= k < c && #[trigger] kinds[k] is None,
            text::views(kept@) == if met_none {
                routing::members(all, keys, None)
            } else {
                seq![]
            },
            anti_call_views(calls@) == anti_routes(*map, kinds.take(c as int), all, keys),
        decreases classes.len() - c,
    {
        assert(kinds.take(c + 1).drop_last() =~= kinds.take(c as int));
        assert(kinds.take(c + 1).last() == kinds[c as int]);
        assert(kinds[c as int] == class_view(classes@[c as int]));
        let mine = routing::members_exec(rows, &ids, c);
        proof {
            assert forall|k: int| 0 <= k < all.len() implies (#[trigger] ids@[k] == c <==> keys[k]
                == kinds[c as int]) by {
                assert(kinds[ids@[k] as int] == keys[k]);
            }
            lemma_members_by_class(all, ids@, keys, c, kinds[c as int]);
        }
        match &classes[c] {
            None => {
                proof {
                    if met_none {
                        let k = choose|k: int| 0 <= k < c && #[trigger] kinds[k] is None;
                        assert(kinds[k] == kinds[c as int]);
                    }
                    met_none = true;
                    assert(kinds[c as int] is None);
                }
                kept = mine;
            },
            Some((p, conditions)) => {
                if let Some(replica) = map.pick_replica(PartitionId(*p)) {
                    let x = AntiCall {
                        replica: replica.duplicate(),
                        conditions: text::duplicate_all(conditions),
                        rows: mine,
                    };
                    assert(anti_call_views(calls@.push(x)) =~= anti_call_views(calls@).push(
                        (x.replica@, text::views(x.conditions@), text::views(x.rows@)),
                    ));
                    calls.push(x);
                }
            },
        }
        c = c + 1;
    }
    assert(kinds.take(kinds.len() as int) =~= kinds);
    proof {
        let none: Option<(u32, Seq<PropertyFilterView>)> = None;
        if !met_none {
            routing::lemma_distinct(keys, none);
            if keys.contains(none) {
                let k = choose|k: int| 0 <= k < kinds.len() && kinds[k] == none;
                assert(kinds[k] is None);
            }
            lemma_members_none(all, keys, none);
        }
    }
    Ok(AntiPlan { kept, calls })
}

/// The ids of edges.
fn edge_ids(edges: &Vec<EdgeAt>) -> (r: Vec<EdgeId>)
    ensures
        r@ == edges@.map_values(|e: EdgeAt| e.edge),
{
    let mut ids: Vec<EdgeId> = Vec::new();
    let mut i: usize = 0;
    while i < edges.len()
        invariant
            i <= edges@.len(),
            ids@ == edges@.map_values(|e: EdgeAt| e.edge).take(i as int),
        decreases edges.len() - i,
    {
        ids.push(edges[i].edge);
        assert(ids@ =~= edges@.map_values(|e: EdgeAt| e.edge).take(i + 1));
        i = i + 1;
    }
    assert(ids@ =~= edges@.map_values(|e: EdgeAt| e.edge));
    ids
}

/// The step of one round of a hop.
pub fn make_round_step(step: &PlanStep, first: bool) -> (r: PlanStep)
    requires
        step@ is ExpandHop,
    ensures
        r@ == PlanStepView::ExpandHop(
            round_step(
                step@->ExpandHop_0,
                if first {
                    1
                } else {
                    2
                },
            ),
        ),
{
    let filters: Vec<PropertyFilter> = Vec::new();
    assert(text::views(filters@) =~= Seq::<PropertyFilterView>::empty());
    match step {
        PlanStep::ExpandHop { from_alias, to_alias, edge_type, direction, hops, edge_alias, .. } =>
            PlanStep::ExpandHop {
            from_alias: if first {
                from_alias.clone()
            } else {
                to_alias.clone()
            },
            to_alias: to_alias.clone(),
            to_label: None,
            edge_type: text::duplicate_option(edge_type),
            direction: *direction,
            hops: HopRange { min: 1, max: 1 },
            filters,
            edge_alias: if hops.min == 1 && hops.max == 1 {
                text::duplicate_option(edge_alias)
            } else {
                None
            },
        },
        _ => PlanStep::ResolveAll { alias: String::new(), label: String::new() },
    }
}

/// The conditions of a hop on the node that it leads to.
fn make_hop_conditions(step: &PlanStep) -> (r: Vec<(String, PropertyFilter)>)
    requires
        step@ is ExpandHop,
    ensures
        query::conditions_on(r@) == hop_conditions(step@->ExpandHop_0),
{
    let ghost hop = step@->ExpandHop_0;
    let mut out: Vec<(String, PropertyFilter)> = Vec::new();
    if let PlanStep::ExpandHop { to_alias, filters, .. } = step {
        let mut i: usize = 0;
        while i < filters.len()
            invariant
                i <= filters@.len(),
                hop.to_alias == to_alias@,
                hop.filters == text::views(filters@),
                out@.len() == i,
                forall|k: int|
                    0 <= k < i ==> (#[trigger] out@[k]).0@ == to_alias@ && out@[k].1@
                        == filters@[k]@,
            decreases filters.len() - i,
        {
            out.push((to_alias.clone(), filters[i].duplicate()));
            i = i + 1;
        }
        assert(query::conditions_on(out@) =~= hop_conditions(hop));
    }
    out
}

/// The aliases of conditions.
fn aliases_of(conditions: &Vec<(String, PropertyFilter)>) -> (r: Vec<String>)
    ensures
        text::views(r@) == hydration::condition_aliases(query::conditions_on(conditions@)),
{
    let mut out: Vec<String> = Vec::new();
    let mut i: usize = 0;
    while i < conditions.len()
        invariant
            i <= conditions@.len(),
            out@.len() == i,
            forall|k: int| 0 <= k < i ==> (#[trigger] out@[k])@ == conditions@[k].0@,
        decreases conditions.len() - i,
    {
        out.push(conditions[i].0.clone());
        i = i + 1;
    }
    assert(text::views(out@) =~= hydration::condition_aliases(query::conditions_on(conditions@)));
    out
}

/// The aliases that the outer conditions of a `NOT EXISTS` refer to.
fn outer_aliases_of(step: &AntiJoinStep) -> (r: Vec<String>)
    ensures
        text::views(r@) == hydration::outer_aliases(step@.outer_conditions),
{
    let mut out: Vec<String> = Vec::new();
    let mut i: usize = 0;
    while i < step.outer_conditions.len()
        invariant
            i <= step.outer_conditions@.len(),
            out@.len() == i,
            forall|k: int|
                0 <= k < i ==> (#[trigger] out@[k])@ == step.outer_conditions@[k].2.alias@,
        decreases step.outer_conditions.len() - i,
    {
        out.push(step.outer_conditions[i].2.alias.clone());
        i = i + 1;
    }
    assert(text::views(out@) =~= hydration::outer_aliases(step@.outer_conditions));
    out
}

/// Executes plans over a cluster by asking replicas.
#[derive(Debug)]
pub struct ScatterGatherExecutor<R> {
    pub rpc: R,
    pub hasher: PartitionHasher,
}

impl<R> ScatterGatherExecutor<R> {
    pub fn new(rpc: R, hasher: PartitionHasher) -> (r: Self)
        ensures
            r.rpc == rpc,
            r.hasher == hasher,
    {
        ScatterGatherExecutor { rpc, hasher }
    }
}

proof fn lemma_gathered_push(
    replies: Seq<Result<Seq<BindingView>, ExecutionErrorView>>,
    x: Result<Seq<BindingView>, ExecutionErrorView>,
)
    ensures
        gathered(replies.push(x)) == (match gathered(replies) {
            Err(e) => Err(e),
            Ok(rows) => match x {
                Err(e) => Err(e),
                Ok(more) => Ok(rows + more),
            },
        }),
{
    assert(replies.push(x).drop_last() =~= replies);
}

proof fn lemma_hop_prefix(
    map: PartitionMap,
    n: u32,
    hop: ExpandHopView,
    frontier: Seq<BindingView>,
    a: Seq<Seq<Result<FrontierView, ExecutionErrorView>>>,
    b: Seq<Seq<Result<FrontierView, ExecutionErrorView>>>,
    k: nat,
)
    requires
        k <= a.len(),
        k <= b.len(),
        forall|i: int| 0 <= i < k ==> a[i] == #[trigger] b[i],
    ensures
        hop_run(map, n, hop, frontier, a, k) == hop_run(map, n, hop, frontier, b, k),
    decreases k,
{
    if k > 0 {
        lemma_hop_prefix(map, n, hop, frontier, a, b, (k - 1) as nat);
        assert(a[k - 1] == b[k - 1]);
    }
}

proof fn lemma_hop_settled(
    map: PartitionMap,
    n: u32,
    hop: ExpandHopView,
    frontier: Seq<BindingView>,
    rounds: Seq<Seq<Result<FrontierView, ExecutionErrorView>>>,
    k: nat,
    m: nat,
)
    requires
        k <= m,
        hop_run(map, n, hop, frontier, rounds, k) matches Ok((current, _)) ==> current.len() == 0,
    ensures
        hop_run(map, n, hop, frontier, rounds, m) == hop_run(map, n, hop, frontier, rounds, k),
    decreases m,
{
    if k < m {
        lemma_hop_settled(map, n, hop, frontier, rounds, k, (m - 1) as nat);
    }
}

/// Once a hop has ended no further round is asked.
proof fn lemma_rounds_settled<R: PartitionRpc>(
    rpc: R,
    map: PartitionMap,
    n: u32,
    hop: ExpandHopView,
    frontier: Seq<BindingView>,
    rounds: Seq<Seq<Result<FrontierView, ExecutionErrorView>>>,
    m: nat,
)
    requires
        hop_run(map, n, hop, frontier, rounds, m) matches Ok((current, _)) ==> current.len() == 0,
        forall|k: nat|
            1 <= k <= m ==> #[trigger] asked_kth_round(rpc, map, n, hop, frontier, rounds, k),
    ensures
        asked_hop(rpc, map, n, hop, frontier, rounds),
{
    assert forall|k: nat| 1 <= k <= hop.hops.max implies #[trigger] asked_kth_round(
        rpc,
        map,
        n,
        hop,
        frontier,
        rounds,
        k,
    ) by {
        if k > m {
            lemma_hop_settled(map, n, hop, frontier, rounds, m, (k - 1) as nat);
        }
    }
}

impl<R: PartitionRpc> ScatterGatherExecutor<R> {
    /// Asks every partition for the start.
    fn broadcast_resolve_start(&self, step: &PlanStep, map: &PartitionMap) -> (r: Result<
        Vec<Binding>,
        ExecutionError,
    >)
        requires
            map.wf(),
        ensures
            exists|replies: Seq<Result<Seq<BindingView>, ExecutionErrorView>>|
                asked_start(self.rpc, broadcast_targets(*map, map.known()), step@, replies)
                    && query::rows_view(r) == #[trigger] start_outcome(replies),
    {
        let targets = targets(map);
        let ghost asked = broadcast_targets(*map, map.known());
        let ghost mut replies: Seq<Result<Seq<BindingView>, ExecutionErrorView>> = seq![];
        let mut rows: Vec<Binding> = Vec::new();
        let mut i: usize = 0;
        assert(text::views(rows@) =~= Seq::<BindingView>::empty());
        while i < targets.len()
            invariant
                i <= targets@.len(),
                asked == text::views(targets@),
                asked == broadcast_targets(*map, map.known()),
                replies.len() == i,
                forall|k: int|
                    0 <= k < i ==> asked_one_start(
                        self.rpc,
                        asked[k],
                        step@,
                        #[trigger] replies[k],
                    ),
                gathered(replies) == Ok::<Seq<BindingView>, ExecutionErrorView>(
                    text::views(rows@),
                ),
            decreases targets.len() - i,
        {
            assert(asked[i as int] == targets@[i as int]@);
            let reply = match step {
                PlanStep::ResolveAll { .. } => self.rpc.resolve_all(&targets[i], step),
                _ => self.rpc.resolve_start(&targets[i], step),
            };
            proof {
                lemma_gathered_push(replies, query::rows_view(reply));
                replies = replies.push(query::rows_view(reply));
            }
            match reply {
                Ok(more) => {
                    let ghost before = text::views(rows@);
                    let ghost added = text::views(more@);
                    let mut more = more;
                    rows.append(&mut more);
                    assert(text::views(rows@) =~= before + added);
                },
                Err(e) => {
                    let r: Result<Vec<Binding>, ExecutionError> = Err(e);
                    assert(query::rows_view(r) == start_outcome(replies));
                    return r;
                },
            }
            i = i + 1;
        }
        let r: Result<Vec<Binding>, ExecutionError> = Ok(dedup(rows));
        assert(query::rows_view(r) == start_outcome(replies));
        r
    }

    /// Sends rows to their owners for one hop.
    fn one_round(&self, step: &PlanStep, alias: &String, frontier: &Vec<Binding>, map: &PartitionMap) -> (r:
        Result<Vec<Binding>, ExecutionError>)
        requires
            map.wf(),
            self.hasher.n_partitions > 0,
        ensures
            exists|replies: Seq<Result<FrontierView, ExecutionErrorView>>|
                (routing::row_routes(
                    *map,
                    text::views(frontier@),
                    alias@,
                    self.hasher.n_partitions,
                ) matches Ok(routes) ==> asked_round(self.rpc, routes, step@, replies))
                    && query::rows_view(r) == #[trigger] round_outcome(
                    *map,
                    text::views(frontier@),
                    alias@,
                    self.hasher.n_partitions,
                    replies,
                ),
    {
        let ghost mut replies: Seq<Result<FrontierView, ExecutionErrorView>> = seq![];
        let ghost all = text::views(frontier@);
        let ghost n = self.hasher.n_partitions;
        let routes = match routing::route_rows(map, &self.hasher, frontier, alias) {
            Ok(routes) => routes,
            Err(e) => {
                let r: Result<Vec<Binding>, ExecutionError> = Err(e);
                assert(query::rows_view(r) == round_outcome(*map, all, alias@, n, replies));
                return r;
            },
        };
        let ghost asked = routing::route_views(routes@);
        let mut rows: Vec<Binding> = Vec::new();
        let mut i: usize = 0;
        assert(text::views(rows@) =~= Seq::<BindingView>::empty());
        assert(flat_all(replies) =~= Seq::<Result<Seq<BindingView>, ExecutionErrorView>>::empty());
        while i < routes.len()
            invariant
                i <= routes@.len(),
                routing::row_routes(*map, all, alias@, n) == Ok::<
                    Seq<(ReplicaEndpointView, Seq<BindingView>)>,
                    ExecutionErrorView,
                >(asked),
                asked == routing::route_views(routes@),
                replies.len() == i,
                forall|k: int|
                    0 <= k < i ==> self.rpc.hop_answer(
                        asked[k].0,
                        step@,
                        asked[k].1,
                        #[trigger] replies[k],
                    ),
                all == text::views(frontier@),
                n == self.hasher.n_partitions,
                gathered(flat_all(replies)) == Ok::<Seq<BindingView>, ExecutionErrorView>(
                    text::views(rows@),
                ),
            decreases routes.len() - i,
        {
            assert(asked[i as int] == (
                routes@[i as int].replica@,
                text::views(routes@[i as int].items@),
            ));
            let reply = self.rpc.expand_hop(&routes[i].replica, step, &routes[i].items);
            proof {
                let x = local_executor::frontier_view(reply);
                assert(flat_all(replies.push(x)) =~= flat_all(replies).push(flat(x)));
                lemma_gathered_push(flat_all(replies), flat(x));
                replies = replies.push(x);
            }
            match reply {
                Ok(f) => {
                    let ghost before = text::views(rows@);
                    let ghost added = all_rows(f@);
                    let mut more = flatten(f);
                    rows.append(&mut more);
                    assert(text::views(rows@) =~= before + added);
                },
                Err(e) => {
                    let r: Result<Vec<Binding>, ExecutionError> = Err(e);
                    assert(query::rows_view(r) == round_outcome(*map, all, alias@, n, replies));
                    return r;
                },
            }
            i = i + 1;
        }
        let r: Result<Vec<Binding>, ExecutionError> = Ok(rows);
        assert(query::rows_view(r) == round_outcome(*map, all, alias@, n, replies));
        r
    }

    /// Walks a hop round by round, as many rounds as it has hops.
    fn scatter_gather_hop(&self, step: &PlanStep, frontier: Vec<Binding>, map: &PartitionMap) -> (r:
        Result<Vec<Binding>, ExecutionError>)
        requires
            map.wf(),
            self.hasher.n_partitions > 0,
            step@ is ExpandHop,
        ensures
            exists|rounds: Seq<Seq<Result<FrontierView, ExecutionErrorView>>>|
                asked_hop(
                    self.rpc,
                    *map,
                    self.hasher.n_partitions,
                    step@->ExpandHop_0,
                    text::views(frontier@),
                    rounds,
                ) && query::rows_view(r) == #[trigger] hop_outcome(
                    *map,
                    self.hasher.n_partitions,
                    step@->ExpandHop_0,
                    text::views(frontier@),
                    rounds,
                ),
    {
        let ghost hop = step@->ExpandHop_0;
        let ghost all = text::views(frontier@);
        let ghost n = self.hasher.n_partitions;
        let ghost mut rounds: Seq<Seq<Result<FrontierView, ExecutionErrorView>>> = seq![];
        let mut current = frontier;
        let mut accepted: Vec<Binding> = Vec::new();
        assert(text::views(accepted@) =~= Seq::<BindingView>::empty());
        if let PlanStep::ExpandHop { from_alias, to_alias, hops, .. } = step {
            let mut depth: u32 = 0;
            while depth < hops.max && current.len() > 0
                invariant
                    depth <= hops.max,
                    map.wf(),
                    self.hasher.n_partitions > 0,
                    n == self.hasher.n_partitions,
                    all == text::views(frontier@),
                    step@ == PlanStepView::ExpandHop(hop),
                    hop.from_alias == from_alias@,
                    hop.to_alias == to_alias@,
                    hop.hops == *hops,
                    rounds.len() == depth,
                    forall|k: nat|
                        1 <= k <= depth ==> #[trigger] asked_kth_round(
                            self.rpc,
                            *map,
                            n,
                            hop,
                            all,
                            rounds,
                            k,
                        ),
                    hop_run(*map, n, hop, all, rounds, depth as nat) == Ok::<
                        (Seq<BindingView>, Seq<BindingView>),
                        ExecutionErrorView,
                    >((text::views(current@), text::views(accepted@))),
                decreases hops.max - depth,
            {
                let first = depth == 0;
                let round = make_round_step(step, first);
                let alias = if first {
                    from_alias
                } else {
                    to_alias
                };
                let result = self.one_round(&round, alias, &current, map);
                let ghost replies = choose|replies: Seq<Result<FrontierView, ExecutionErrorView>>|
                    (routing::row_routes(
                        *map,
                        text::views(current@),
                        alias@,
                        n,
                    ) matches Ok(routes) ==> asked_round(self.rpc, routes, round@, replies))
                        && query::rows_view(result) == #[trigger] round_outcome(
                        *map,
                        text::views(current@),
                        alias@,
                        n,
                        replies,
                    );
                proof {
                    let longer = rounds.push(replies);
                    lemma_hop_prefix(*map, n, hop, all, rounds, longer, depth as nat);
                    let next = (depth + 1) as nat;
                    assert(round@ == PlanStepView::ExpandHop(round_step(hop, next)));
                    assert(alias@ == cursor(hop, next));
                    assert(asked_kth_round(self.rpc, *map, n, hop, all, longer, next));
                    assert forall|k: nat| 1 <= k <= next implies #[trigger] asked_kth_round(
                        self.rpc,
                        *map,
                        n,
                        hop,
                        all,
                        longer,
                        k,
                    ) by {
                        if k <= depth {
                            assert(asked_kth_round(self.rpc, *map, n, hop, all, rounds, k));
                            lemma_hop_prefix(*map, n, hop, all, rounds, longer, (k - 1) as nat);
                        }
                    }
                    rounds = longer;
                }
                depth = depth + 1;
                match result {
                    Ok(next) => {
                        if depth >= hops.min {
                            accept(&mut accepted, &next);
                        }
                        current = next;
                    },
                    Err(e) => {
                        let r: Result<Vec<Binding>, ExecutionError> = Err(e);
                        proof {
                            lemma_hop_settled(
                                *map,
                                n,
                                hop,
                                all,
                                rounds,
                                depth as nat,
                                hops.max as nat,
                            );
                            lemma_rounds_settled(
                                self.rpc,
                                *map,
                                n,
                                hop,
                                all,
                                rounds,
                                depth as nat,
                            );
                            assert(query::rows_view(r) == hop_outcome(*map, n, hop, all, rounds));
                        }
                        return r;
                    },
                }
            }
            proof {
                if depth < hops.max {
                    lemma_hop_settled(*map, n, hop, all, rounds, depth as nat, hops.max as nat);
                    lemma_rounds_settled(self.rpc, *map, n, hop, all, rounds, depth as nat);
                }
                assert(asked_hop(self.rpc, *map, n, hop, all, rounds));
            }
        }
        let r: Result<Vec<Binding>, ExecutionError> = Ok(accepted);
        assert(query::rows_view(r) == hop_outcome(*map, n, hop, all, rounds));
        r
    }

    /// Fetches the records of nodes from the partitions that own them.
    pub fn get_node_properties(&self, ids: &Vec<NodeId>, map: &PartitionMap) -> (r: Result<
        IdMap<NodeRecord>,
        ExecutionError,
    >)
        requires
            map.wf(),
            self.hasher.n_partitions > 0,
        ensures
            exists|replies: Seq<Result<Seq<(NodeId, NodeRecordView)>, ExecutionErrorView>>|
                asked_nodes(
                    self.rpc,
                    routing::routes_of(
                        *map,
                        ids@,
                        routing::node_owners(ids@, self.hasher.n_partitions),
                    ),
                    replies,
                ) && match r {
                    Ok(records) => records.wf() && #[trigger] gathered_nodes(replies) == Ok::<
                        Map<u64, NodeRecordView>,
                        ExecutionErrorView,
                    >(builder::node_record_views(records.map())),
                    Err(e) => gathered_nodes(replies) == Err::<
                        Map<u64, NodeRecordView>,
                        ExecutionErrorView,
                    >(e@),
                },
    {
        let ghost mut replies: Seq<Result<Seq<(NodeId, NodeRecordView)>, ExecutionErrorView>> =
            seq![];
        let routes = routing::route_nodes(map, &self.hasher, ids);
        let ghost asked = routing::route_views(routes@);
        let mut records: IdMap<NodeRecord> = IdMap::new();
        assert(builder::node_record_views(records.map()) =~= Map::<u64, NodeRecordView>::empty());
        let mut i: usize = 0;
        while i < routes.len()
            invariant
                i <= routes@.len(),
                records.wf(),
                asked == routing::route_views(routes@),
                asked == routing::routes_of(
                    *map,
                    ids@,
                    routing::node_owners(ids@, self.hasher.n_partitions),
                ),
                replies.len() == i,
                forall|k: int|
                    0 <= k < i ==> self.rpc.nodes_answer(
                        asked[k].0,
                        asked[k].1,
                        #[trigger] replies[k],
                    ),
                gathered_nodes(replies) == Ok::<Map<u64, NodeRecordView>, ExecutionErrorView>(
                    builder::node_record_views(records.map()),
                ),
            decreases routes.len() - i,
        {
            proof {
                assert(text::views(routes@[i as int].items@) =~= routes@[i as int].items@);
                assert(asked[i as int] == (routes@[i as int].replica@, routes@[i as int].items@));
            }
            match self.rpc.get_node_properties(&routes[i].replica, &routes[i].items) {
                Ok(pairs) => {
                    proof {
                        let longer = replies.push(Ok(node_pairs(pairs@)));
                        assert(longer.drop_last() =~= replies);
                        replies = longer;
                    }
                    add_nodes(&mut records, pairs);
                },
                Err(e) => {
                    proof {
                        let longer = replies.push(Err(e@));
                        assert(longer.drop_last() =~= replies);
                        replies = longer;
                    }
                    assert(gathered_nodes(replies) == Err::<
                        Map<u64, NodeRecordView>,
                        ExecutionErrorView,
                    >(e@));
                    return Err(e);
                },
            }
            i = i + 1;
        }
        Ok(records)
    }

    /// Fetches the records of edges from the partitions that own them.
    pub fn get_edge_properties(&self, edges: &Vec<EdgeAt>, map: &PartitionMap) -> (r: Result<
        IdMap<EdgeRecord>,
        ExecutionError,
    >)
        requires
            map.wf(),
            self.hasher.n_partitions > 0,
        ensures
            exists|replies: Seq<Result<Seq<(EdgeId, EdgeRecordView)>, ExecutionErrorView>>|
                asked_edges(
                    self.rpc,
                    routing::routes_of(
                        *map,
                        edges@,
                        routing::edge_owners(edges@, self.hasher.n_partitions),
                    ),
                    replies,
                ) && match r {
                    Ok(records) => records.wf() && #[trigger] gathered_edges(replies) == Ok::<
                        Map<u64, EdgeRecordView>,
                        ExecutionErrorView,
                    >(builder::edge_record_views(records.map())),
                    Err(e) => gathered_edges(replies) == Err::<
                        Map<u64, EdgeRecordView>,
                        ExecutionErrorView,
                    >(e@),
                },
    {
        let ghost mut replies: Seq<Result<Seq<(EdgeId, EdgeRecordView)>, ExecutionErrorView>> =
            seq![];
        let routes = routing::route_edges(map, &self.hasher, edges);
        let ghost asked = routing::route_views(routes@);
        let mut records: IdMap<EdgeRecord> = IdMap::new();
        assert(builder::edge_record_views(records.map()) =~= Map::<u64, EdgeRecordView>::empty());
        let mut i: usize = 0;
        while i < routes.len()
            invariant
                i <= routes@.len(),
                records.wf(),
                asked == routing::route_views(routes@),
                asked == routing::routes_of(
                    *map,
                    edges@,
                    routing::edge_owners(edges@, self.hasher.n_partitions),
                ),
                replies.len() == i,
                forall|k: int|
                    0 <= k < i ==> self.rpc.edges_answer(
                        asked[k].0,
                        asked[k].1.map_values(|e: EdgeAt| e.edge),
                        #[trigger] replies[k],
                    ),
                gathered_edges(replies) == Ok::<Map<u64, EdgeRecordView>, ExecutionErrorView>(
                    builder::edge_record_views(records.map()),
                ),
            decreases routes.len() - i,
        {
            let ids = edge_ids(&routes[i].items);
            proof {
                assert(text::views(routes@[i as int].items@) =~= routes@[i as int].items@);
                assert(asked[i as int] == (routes@[i as int].replica@, routes@[i as int].items@));
            }
            match self.rpc.get_edge_properties(&routes[i].replica, &ids) {
                Ok(pairs) => {
                    proof {
                        let longer = replies.push(Ok(edge_pairs(pairs@)));
                        assert(longer.drop_last() =~= replies);
                        replies = longer;
                    }
                    add_edges(&mut records, pairs);
                },
                Err(e) => {
                    proof {
                        let longer = replies.push(Err(e@));
                        assert(longer.drop_last() =~= replies);
                        replies = longer;
                    }
                    assert(gathered_edges(replies) == Err::<
                        Map<u64, EdgeRecordView>,
                        ExecutionErrorView,
                    >(e@));
                    return Err(e);
                },
            }
            i = i + 1;
        }
        Ok(records)
    }

    /// Fetches the records of what rows bind some aliases to.
    pub fn hydrate(
        &self,
        rows: &Vec<Binding>,
        aliases: &Vec<String>,
        steps: &Vec<PlanStep>,
        map: &PartitionMap,
    ) -> (r: Result<Records, ExecutionError>)
        requires
            map.wf(),
            self.hasher.n_partitions > 0,
        ensures
            exists|fetched: Fetched|
                asked_records(
                    self.rpc,
                    *map,
                    self.hasher.n_partitions,
                    text::views(rows@),
                    text::views(aliases@),
                    text::views(steps@),
                    fetched,
                ) && match r {
                    Ok(records) => records.wf() && #[trigger] gathered_records(fetched) == Ok::<
                        RecordsView,
                        ExecutionErrorView,
                    >(records@),
                    Err(e) => gathered_records(fetched) == Err::<RecordsView, ExecutionErrorView>(
                        e@,
                    ),
                },
    {
        let ghost n = self.hasher.n_partitions;
        let node_ids = hydration::collect_nodes(rows, aliases);
        let node_result = self.get_node_properties(&node_ids, map);
        let ghost node_replies = choose|
            replies: Seq<Result<Seq<(NodeId, NodeRecordView)>, ExecutionErrorView>>,
        |
            asked_nodes(
                self.rpc,
                routing::routes_of(*map, node_ids@, routing::node_owners(node_ids@, n)),
                replies,
            ) && match node_result {
                Ok(records) => records.wf() && #[trigger] gathered_nodes(replies) == Ok::<
                    Map<u64, NodeRecordView>,
                    ExecutionErrorView,
                >(builder::node_record_views(records.map())),
                Err(e) => gathered_nodes(replies) == Err::<
                    Map<u64, NodeRecordView>,
                    ExecutionErrorView,
                >(e@),
            };
        let nodes = match node_result {
            Ok(nodes) => nodes,
            Err(e) => {
                let ghost fetched = Fetched { nodes: node_replies, edges: seq![] };
                assert(gathered_records(fetched) == Err::<RecordsView, ExecutionErrorView>(e@));
                return Err(e);
            },
        };
        let edge_ids = hydration::collect_edges(rows, aliases, steps);
        let edge_result = self.get_edge_properties(&edge_ids, map);
        let ghost edge_replies = choose|
            replies: Seq<Result<Seq<(EdgeId, EdgeRecordView)>, ExecutionErrorView>>,
        |
            asked_edges(
                self.rpc,
                routing::routes_of(*map, edge_ids@, routing::edge_owners(edge_ids@, n)),
                replies,
            ) && match edge_result {
                Ok(records) => records.wf() && #[trigger] gathered_edges(replies) == Ok::<
                    Map<u64, EdgeRecordView>,
                    ExecutionErrorView,
                >(builder::edge_record_views(records.map())),
                Err(e) => gathered_edges(replies) == Err::<
                    Map<u64, EdgeRecordView>,
                    ExecutionErrorView,
                >(e@),
            };
        let ghost fetched = Fetched { nodes: node_replies, edges: edge_replies };
        match edge_result {
            Ok(edges) => {
                let records = Records { nodes, edges };
                assert(gathered_records(fetched) == Ok::<RecordsView, ExecutionErrorView>(
                    records@,
                ));
                Ok(records)
            },
            Err(e) => {
                assert(gathered_records(fetched) == Err::<RecordsView, ExecutionErrorView>(e@));
                Err(e)
            },
        }
    }

    /// Keeps the rows that meet conditions on fetched properties.
    fn filter_frontier(
        &self,
        rows: Vec<Binding>,
        conditions: &Vec<(String, PropertyFilter)>,
        steps: &Vec<PlanStep>,
        map: &PartitionMap,
    ) -> (r: Result<Vec<Binding>, ExecutionError>)
        requires
            map.wf(),
            self.hasher.n_partitions > 0,
        ensures
            exists|fetched: Fetched|
                asked_filter(
                    self.rpc,
                    *map,
                    self.hasher.n_partitions,
                    text::views(rows@),
                    query::conditions_on(conditions@),
                    text::views(steps@),
                    fetched,
                ) && query::rows_view(r) == #[trigger] filter_outcome(
                    text::views(rows@),
                    query::conditions_on(conditions@),
                    fetched,
                ),
    {
        let ghost all = text::views(rows@);
        let ghost cs = query::conditions_on(conditions@);
        if conditions.len() == 0 || rows.len() == 0 {
            let ghost fetched = Fetched { nodes: seq![], edges: seq![] };
            let r: Result<Vec<Binding>, ExecutionError> = Ok(rows);
            assert(query::rows_view(r) == filter_outcome(all, cs, fetched));
            return r;
        }
        let aliases = aliases_of(conditions);
        let result = self.hydrate(&rows, &aliases, steps, map);
        let ghost fetched = choose|fetched: Fetched|
            asked_records(
                self.rpc,
                *map,
                self.hasher.n_partitions,
                text::views(rows@),
                text::views(aliases@),
                text::views(steps@),
                fetched,
            ) && match result {
                Ok(records) => records.wf() && #[trigger] gathered_records(fetched) == Ok::<
                    RecordsView,
                    ExecutionErrorView,
                >(records@),
                Err(e) => gathered_records(fetched) == Err::<RecordsView, ExecutionErrorView>(e@),
            };
        let r: Result<Vec<Binding>, ExecutionError> = match result {
            Ok(records) => Ok(hydration::keep_rows(rows, conditions, &records)),
            Err(e) => Err(e),
        };
        assert(query::rows_view(r) == filter_outcome(all, cs, fetched));
        r
    }

    /// Checks a `NOT EXISTS` of rows.
    fn execute_anti_join(
        &self,
        step: &AntiJoinStep,
        rows: &Vec<Binding>,
        steps: &Vec<PlanStep>,
        map: &PartitionMap,
    ) -> (r: Result<Vec<Binding>, ExecutionError>)
        requires
            map.wf(),
            self.hasher.n_partitions > 0,
        ensures
            exists|fetched: Fetched, replies: Seq<Result<Seq<BindingView>, ExecutionErrorView>>|
                asked_anti(
                    self.rpc,
                    *map,
                    self.hasher.n_partitions,
                    step@,
                    text::views(rows@),
                    text::views(steps@),
                    fetched,
                    replies,
                ) && query::rows_view(r) == #[trigger] anti_outcome(
                    *map,
                    self.hasher.n_partitions,
                    step@,
                    text::views(rows@),
                    fetched,
                    replies,
                ),
    {
        let ghost all = text::views(rows@);
        let ghost n = self.hasher.n_partitions;
        let ghost mut replies: Seq<Result<Seq<BindingView>, ExecutionErrorView>> = seq![];
        let aliases = outer_aliases_of(step);
        let result = self.hydrate(rows, &aliases, steps, map);
        let ghost fetched = choose|fetched: Fetched|
            asked_records(
                self.rpc,
                *map,
                self.hasher.n_partitions,
                text::views(rows@),
                text::views(aliases@),
                text::views(steps@),
                fetched,
            ) && match result {
                Ok(records) => records.wf() && #[trigger] gathered_records(fetched) == Ok::<
                    RecordsView,
                    ExecutionErrorView,
                >(records@),
                Err(e) => gathered_records(fetched) == Err::<RecordsView, ExecutionErrorView>(e@),
            };
        let records = match result {
            Ok(records) => records,
            Err(e) => {
                let r: Result<Vec<Binding>, ExecutionError> = Err(e);
                assert(query::rows_view(r) == anti_outcome(*map, n, step@, all, fetched, replies));
                return r;
            },
        };
        let plan = match plan_anti_join(map, &self.hasher, step, rows, &records) {
            Ok(plan) => plan,
            Err(e) => {
                let r: Result<Vec<Binding>, ExecutionError> = Err(e);
                assert(query::rows_view(r) == anti_outcome(*map, n, step@, all, fetched, replies));
                return r;
            },
        };
        let AntiPlan { kept, calls } = plan;
        let ghost asked = anti_call_views(calls@);
        let ghost keys = anti_keys(all, step@, n, records@);
        let ghost first = text::views(kept@);
        let mut left = kept;
        let mut i: usize = 0;
        assert(first + Seq::<BindingView>::empty() =~= first);
        while i < calls.len()
            invariant
                i <= calls@.len(),
                n == self.hasher.n_partitions,
                asked == anti_call_views(calls@),
                keys == anti_keys(all, step@, n, records@),
                asked == anti_routes(*map, routing::distinct(keys), all, keys),
                asked_records(
                    self.rpc,
                    *map,
                    n,
                    all,
                    hydration::outer_aliases(step@.outer_conditions),
                    text::views(steps@),
                    fetched,
                ),
                replies.len() == i,
                forall|k: int|
                    0 <= k < i ==> self.rpc.check_answer(
                        asked[k].0,
                        step@,
                        asked[k].1,
                        asked[k].2,
                        #[trigger] replies[k],
                    ),
                gathered_records(fetched) == Ok::<RecordsView, ExecutionErrorView>(records@),
                local_executor::all_bind(all, step@.from_alias),
                first == routing::members(all, anti_keys(all, step@, n, records@), None),
                all == text::views(rows@),
                gathered(replies) is Ok,
                text::views(left@) == first + gathered(replies)->Ok_0,
            decreases calls.len() - i,
        {
            assert(asked[i as int] == (
                calls@[i as int].replica@,
                text::views(calls@[i as int].conditions@),
                text::views(calls@[i as int].rows@),
            ));
            let reply = self.rpc.check_anti_join(
                &calls[i].replica,
                step,
                &calls[i].conditions,
                &calls[i].rows,
            );
            let ghost so_far = gathered(replies)->Ok_0;
            proof {
                lemma_gathered_push(replies, query::rows_view(reply));
                replies = replies.push(query::rows_view(reply));
            }
            match reply {
                Ok(more) => {
                    let ghost added = text::views(more@);
                    let mut more = more;
                    left.append(&mut more);
                    assert(text::views(left@) =~= (first + so_far) + added);
                    assert((first + so_far) + added =~= first + (so_far + added));
                },
                Err(e) => {
                    let r: Result<Vec<Binding>, ExecutionError> = Err(e);
                    assert(query::rows_view(r) == anti_outcome(
                        *map,
                        n,
                        step@,
                        all,
                        fetched,
                        replies,
                    ));
                    return r;
                },
            }
            i = i + 1;
        }
        let r: Result<Vec<Binding>, ExecutionError> = Ok(left);
        assert(query::rows_view(r) == anti_outcome(*map, n, step@, all, fetched, replies));
        r
    }

    /// Executes a step that is not the first.
    fn execute_step(
        &self,
        step: &PlanStep,
        rows: Vec<Binding>,
        steps: &Vec<PlanStep>,
        map: &PartitionMap,
    ) -> (r: Result<Vec<Binding>, ExecutionError>)
        requires
            map.wf(),
            self.hasher.n_partitions > 0,
        ensures
            exists|run: StepRun|
                asked_step(
                    self.rpc,
                    *map,
                    self.hasher.n_partitions,
                    step@,
                    text::views(rows@),
                    text::views(steps@),
                    run,
                ) && query::rows_view(r) == #[trigger] step_outcome(
                    *map,
                    self.hasher.n_partitions,
                    step@,
                    text::views(rows@),
                    run,
                ),
    {
        let ghost all = text::views(rows@);
        let ghost n = self.hasher.n_partitions;
        let ghost nothing = Fetched { nodes: seq![], edges: seq![] };
        match step {
            PlanStep::ExpandHop { .. } => {
                let ghost hop = step@->ExpandHop_0;
                let reached = self.scatter_gather_hop(step, rows, map);
                let ghost rounds = choose|
                    rounds: Seq<Seq<Result<FrontierView, ExecutionErrorView>>>,
                |
                    asked_hop(self.rpc, *map, n, hop, all, rounds) && query::rows_view(reached)
                        == #[trigger] hop_outcome(*map, n, hop, all, rounds);
                match reached {
                    Ok(reached) => {
                        let conditions = make_hop_conditions(step);
                        let ghost before = text::views(reached@);
                        let r = self.filter_frontier(reached, &conditions, steps, map);
                        let ghost fetched = choose|fetched: Fetched|
                            asked_filter(
                                self.rpc,
                                *map,
                                n,
                                before,
                                hop_conditions(hop),
                                text::views(steps@),
                                fetched,
                            ) && query::rows_view(r) == #[trigger] filter_outcome(
                                before,
                                hop_conditions(hop),
                                fetched,
                            );
                        let ghost run = StepRun { rounds, fetched, checks: seq![] };
                        assert(query::rows_view(r) == step_outcome(*map, n, step@, all, run));
                        r
                    },
                    Err(e) => {
                        let r: Result<Vec<Binding>, ExecutionError> = Err(e);
                        let ghost run = StepRun { rounds, fetched: nothing, checks: seq![] };
                        assert(query::rows_view(r) == step_outcome(*map, n, step@, all, run));
                        r
                    },
                }
            },
            PlanStep::AntiJoin(anti) => {
                let r = self.execute_anti_join(anti, &rows, steps, map);
                let ghost (fetched, replies) = choose|
                    fetched: Fetched,
                    replies: Seq<Result<Seq<BindingView>, ExecutionErrorView>>,
                |
                    asked_anti(
                        self.rpc,
                        *map,
                        n,
                        anti@,
                        all,
                        text::views(steps@),
                        fetched,
                        replies,
                    ) && query::rows_view(r) == #[trigger] anti_outcome(
                        *map,
                        n,
                        anti@,
                        all,
                        fetched,
                        replies,
                    );
                let ghost run = StepRun { rounds: seq![], fetched, checks: replies };
                assert(query::rows_view(r) == step_outcome(*map, n, step@, all, run));
                r
            },
            _ => {
                let r: Result<Vec<Binding>, ExecutionError> = Err(
                    ExecutionError::UnknownAlias(
                        "every plan step after the first must be ExpandHop or AntiJoin".to_owned(),
                    ),
                );
                let ghost run = StepRun { rounds: seq![], fetched: nothing, checks: seq![] };
                assert(query::rows_view(r) == step_outcome(*map, n, step@, all, run));
                r
            },
        }
    }

    /// Executes a plan on one view of the members of the cluster.
    pub fn execute(&self, plan: &QueryPlan, partitions: &PartitionMap) -> (r: Result<
        Vec<Binding>,
        ExecutionError,
    >)
        requires
            partitions.wf(),
            self.hasher.n_partitions > 0,
        ensures
            exists|run: PlanRun|
                asked_plan(self.rpc, *partitions, self.hasher.n_partitions, plan@, run)
                    && query::rows_view(r) == #[trigger] plan_outcome(
                    *partitions,
                    self.hasher.n_partitions,
                    plan@,
                    run,
                ),
    {
        let ghost n = self.hasher.n_partitions;
        let ghost nothing = Fetched { nodes: seq![], edges: seq![] };
        let ghost mut runs: Seq<StepRun> = seq![];
        if plan.steps.len() == 0 {
            let r: Result<Vec<Binding>, ExecutionError> = Err(
                ExecutionError::UnknownAlias(
                    "a plan always has at least a ResolveStart step".to_owned(),
                ),
            );
            let ghost run = PlanRun { start: seq![], steps: runs, last: nothing };
            assert(query::rows_view(r) == plan_outcome(*partitions, n, plan@, run));
            return r;
        }
        let started = self.broadcast_resolve_start(&plan.steps[0], partitions);
        let ghost start = choose|replies: Seq<Result<Seq<BindingView>, ExecutionErrorView>>|
            asked_start(
                self.rpc,
                broadcast_targets(*partitions, partitions.known()),
                plan@.steps[0],
                replies,
            ) && query::rows_view(started) == #[trigger] start_outcome(replies);
        let mut rows = match started {
            Ok(rows) => rows,
            Err(e) => {
                let r: Result<Vec<Binding>, ExecutionError> = Err(e);
                let ghost run = PlanRun { start, steps: runs, last: nothing };
                proof {
                    lemma_rows_failed(*partitions, n, plan@, run, 0, (plan@.steps.len() - 1) as nat);
                    lemma_steps_settled(self.rpc, *partitions, n, plan@, run, 0);
                    assert(query::rows_view(r) == plan_outcome(*partitions, n, plan@, run));
                }
                return r;
            },
        };
        let mut i: usize = 1;
        while i < plan.steps.len()
            invariant
                1 <= i <= plan.steps@.len(),
                partitions.wf(),
                self.hasher.n_partitions > 0,
                n == self.hasher.n_partitions,
                runs.len() == i - 1,
                asked_start(
                    self.rpc,
                    broadcast_targets(*partitions, partitions.known()),
                    plan@.steps[0],
                    start,
                ),
                forall|k: nat|
                    1 <= k < i ==> #[trigger] asked_kth_step(
                        self.rpc,
                        *partitions,
                        n,
                        plan@,
                        PlanRun { start, steps: runs, last: nothing },
                        k,
                    ),
                rows_after(
                    *partitions,
                    n,
                    plan@,
                    PlanRun { start, steps: runs, last: nothing },
                    (i - 1) as nat,
                ) == Ok::<Seq<BindingView>, ExecutionErrorView>(text::views(rows@)),
            decreases plan.steps.len() - i,
        {
            let ghost before = text::views(rows@);
            let step = &plan.steps[i];
            assert(plan@.steps[i as int] == step@);
            let result = self.execute_step(step, rows, &plan.steps, partitions);
            let ghost done = choose|run: StepRun|
                asked_step(
                    self.rpc,
                    *partitions,
                    n,
                    step@,
                    before,
                    plan@.steps,
                    run,
                ) && query::rows_view(result) == #[trigger] step_outcome(
                    *partitions,
                    n,
                    step@,
                    before,
                    run,
                );
            proof {
                let longer = runs.push(done);
                lemma_rows_prefix(
                    *partitions,
                    n,
                    plan@,
                    PlanRun { start, steps: runs, last: nothing },
                    PlanRun { start, steps: longer, last: nothing },
                    (i - 1) as nat,
                );
                lemma_asked_prefix(
                    self.rpc,
                    *partitions,
                    n,
                    plan@,
                    PlanRun { start, steps: runs, last: nothing },
                    PlanRun { start, steps: longer, last: nothing },
                    (i - 1) as nat,
                );
                assert(asked_kth_step(
                    self.rpc,
                    *partitions,
                    n,
                    plan@,
                    PlanRun { start, steps: longer, last: nothing },
                    i as nat,
                ));
                runs = longer;
            }
            match result {
                Ok(next) => {
                    rows = next;
                },
                Err(e) => {
                    let r: Result<Vec<Binding>, ExecutionError> = Err(e);
                    let ghost run = PlanRun { start, steps: runs, last: nothing };
                    proof {
                        lemma_rows_failed(
                            *partitions,
                            n,
                            plan@,
                            run,
                            i as nat,
                            (plan@.steps.len() - 1) as nat,
                        );
                        lemma_steps_settled(self.rpc, *partitions, n, plan@, run, i as nat);
                        assert(query::rows_view(r) == plan_outcome(*partitions, n, plan@, run));
                    }
                    return r;
                },
            }
            i = i + 1;
        }
        let ghost before = text::views(rows@);
        let filtered = self.filter_frontier(rows, &plan.remaining, &plan.steps, partitions);
        let ghost last = choose|fetched: Fetched|
            asked_filter(
                self.rpc,
                *partitions,
                n,
                before,
                plan@.remaining,
                plan@.steps,
                fetched,
            ) && query::rows_view(filtered) == #[trigger] filter_outcome(
                before,
                plan@.remaining,
                fetched,
            );
        let ghost run = PlanRun { start, steps: runs, last };
        proof {
            lemma_rows_prefix(
                *partitions,
                n,
                plan@,
                PlanRun { start, steps: runs, last: nothing },
                run,
                (plan@.steps.len() - 1) as nat,
            );
            lemma_asked_prefix(
                self.rpc,
                *partitions,
                n,
                plan@,
                PlanRun { start, steps: runs, last: nothing },
                run,
                (plan@.steps.len() - 1) as nat,
            );
            assert(asked_plan(self.rpc, *partitions, n, plan@, run));
        }
        let r: Result<Vec<Binding>, ExecutionError> = match filtered {
            Ok(kept) => Ok(dedup(kept)),
            Err(e) => Err(e),
        };
        assert(query::rows_view(r) == plan_outcome(*partitions, n, plan@, run));
        r
    }
}

proof fn lemma_rows_prefix(
    map: PartitionMap,
    n: u32,
    plan: QueryPlanView,
    a: PlanRun,
    b: PlanRun,
    k: nat,
)
    requires
        a.start == b.start,
        k <= a.steps.len(),
        k <= b.steps.len(),
        forall|i: int| 0 <= i < k ==> a.steps[i] == #[trigger] b.steps[i],
    ensures
        rows_after(map, n, plan, a, k) == rows_after(map, n, plan, b, k),
    decreases k,
{
    if k > 0 {
        lemma_rows_prefix(map, n, plan, a, b, (k - 1) as nat);
        assert(a.steps[k - 1] == b.steps[k - 1]);
    }
}

proof fn lemma_asked_prefix<R: PartitionRpc>(
    rpc: R,
    map: PartitionMap,
    n: u32,
    plan: QueryPlanView,
    a: PlanRun,
    b: PlanRun,
    m: nat,
)
    requires
        a.start == b.start,
        m <= a.steps.len(),
        m <= b.steps.len(),
        forall|i: int| 0 <= i < m ==> a.steps[i] == #[trigger] b.steps[i],
        forall|k: nat| 1 <= k <= m ==> #[trigger] asked_kth_step(rpc, map, n, plan, a, k),
    ensures
        forall|k: nat| 1 <= k <= m ==> #[trigger] asked_kth_step(rpc, map, n, plan, b, k),
{
    assert forall|k: nat| 1 <= k <= m implies #[trigger] asked_kth_step(
        rpc,
        map,
        n,
        plan,
        b,
        k,
    ) by {
        assert(asked_kth_step(rpc, map, n, plan, a, k));
        lemma_rows_prefix(map, n, plan, a, b, (k - 1) as nat);
        assert(a.steps[k - 1] == b.steps[k - 1]);
    }
}

/// Once a plan has failed nothing more is asked.
proof fn lemma_steps_settled<R: PartitionRpc>(
    rpc: R,
    map: PartitionMap,
    n: u32,
    plan: QueryPlanView,
    run: PlanRun,
    m: nat,
)
    requires
        plan.steps.len() > 0,
        m < plan.steps.len(),
        asked_start(rpc, broadcast_targets(map, map.known()), plan.steps[0], run.start),
        rows_after(map, n, plan, run, m) is Err,
        forall|k: nat| 1 <= k <= m ==> #[trigger] asked_kth_step(rpc, map, n, plan, run, k),
    ensures
        asked_plan(rpc, map, n, plan, run),
{
    assert forall|k: nat| 1 <= k < plan.steps.len() implies #[trigger] asked_kth_step(
        rpc,
        map,
        n,
        plan,
        run,
        k,
    ) by {
        if k > m {
            lemma_rows_failed(map, n, plan, run, m, (k - 1) as nat);
        }
    }
    lemma_rows_failed(map, n, plan, run, m, (plan.steps.len() - 1) as nat);
}

proof fn lemma_rows_failed(
    map: PartitionMap,
    n: u32,
    plan: QueryPlanView,
    run: PlanRun,
    k: nat,
    m: nat,
)
    requires
        k <= m,
        rows_after(map, n, plan, run, k) is Err,
    ensures
        rows_after(map, n, plan, run, m) == rows_after(map, n, plan, run, k),
    decreases m,
{
    if k < m {
        lemma_rows_failed(map, n, plan, run, k, (m - 1) as nat);
    }
}

} // verus!
