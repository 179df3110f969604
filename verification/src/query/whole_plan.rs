//! A plan gives the same rows on a divided graph as on the undivided one.
//!
//! The steps agree one by one; here they are put together. What replicas
//! answer is what the indexes of their partitions hold, sent over the wire.
use crate::cluster::{PartitionMap, ReplicaEndpointView};
use crate::coordinator::grpc_partition_rpc;
use crate::dsl;
use crate::dsl::validator;
use crate::dsl::{
    ComparisonOp, Direction, PatternStepView, PropertyFilterView, PropertyRefView, QueryView,
    WhereConditionView,
};
use crate::index::builder;
use crate::index::builder::{ScannedEdgeView, ScannedNodeView};
use crate::index::laws;
use crate::index::{
    AdjacencyEntryView, EdgeRecord, EdgeRecordView, IndexGeneration, NodeRecord, NodeRecordView,
    PartitionId, TopologicalIndex,
};
use crate::partition_node::service;
use crate::query::agreement;
use crate::query::distributed;
use crate::query::distributed::{Fetched, PartitionRpc, PlanRun};
use crate::query::filter_eval;
use crate::query::hydration;
use crate::query::hydration::RecordsView;
use crate::query::local_executor;
use crate::query::planner;
use crate::query::routing;
use crate::query::routing::EdgeAt;
use crate::query::walk;
use crate::query::{
    AntiJoinStepView, BindingView, ExecutionErrorView, ExpandHopView, FrontierView, PlanStepView,
    QueryPlanView,
};
use crate::schema::partitioning;
use crate::schema::{EdgeId, NodeId, SchemaView};
use crate::storage::PropertyValueView;
use crate::wire;
use vstd::prelude::*;

verus! {

/// The aliases that are bound to nodes once step `k` is done.
pub open spec fn bound(steps: Seq<PlanStepView>, k: nat) -> Set<Seq<char>>
    decreases k,
{
    let before = if k == 0 {
        Set::empty()
    } else {
        bound(steps, (k - 1) as nat)
    };
    match steps[k as int] {
        PlanStepView::ResolveStart { alias, .. } => before.insert(alias),
        PlanStepView::ResolveAll { alias, .. } => before.insert(alias),
        PlanStepView::ExpandHop(hop) => before.insert(hop.to_alias),
        PlanStepView::AntiJoin(_) => before,
    }
}

/// That step `k` goes from what is bound before it: a hop to a new alias, a
/// `NOT EXISTS` between two that are there. One against the direction of its
/// edge has no conditions, as the properties of that edge may be elsewhere.
/// Names that are sent are not empty, and doubles are known.
pub open spec fn follows(steps: Seq<PlanStepView>, k: nat) -> bool {
    let before = bound(steps, (k - 1) as nat);
    match steps[k as int] {
        PlanStepView::ExpandHop(hop) => {
            &&& before.contains(hop.from_alias)
            &&& !before.contains(hop.to_alias)
            &&& grpc_partition_rpc::not_empty(hop.edge_type)
            &&& grpc_partition_rpc::not_empty(hop.edge_alias)
        },
        PlanStepView::AntiJoin(anti) => {
            &&& before.contains(anti.from_alias)
            &&& before.contains(anti.to_alias)
            &&& anti.direction == Direction::Outgoing || (anti.literal_conditions.len() == 0
                && anti.outer_conditions.len() == 0)
            &&& grpc_partition_rpc::not_empty(anti.edge_type)
            &&& grpc_partition_rpc::doubles_known(anti.literal_conditions)
        },
        _ => false,
    }
}

/// That no two hops give their edges the same alias.
pub open spec fn edges_named_once(steps: Seq<PlanStepView>) -> bool {
    forall|i: int, j: int|
        0 <= i < j < steps.len() && (#[trigger] steps[i]) is ExpandHop && (
        #[trigger] steps[j]) is ExpandHop && (steps[i]->ExpandHop_0).edge_alias is Some ==> (
        steps[i]->ExpandHop_0).edge_alias != (steps[j]->ExpandHop_0).edge_alias
}

/// That a plan starts somewhere and each step follows from those before it.
pub open spec fn chained(steps: Seq<PlanStepView>) -> bool {
    &&& steps.len() > 0
    &&& steps[0] is ResolveStart || steps[0] is ResolveAll
    &&& edges_named_once(steps)
    &&& forall|k: nat| 1 <= k < steps.len() ==> #[trigger] follows(steps, k)
}

/// That a replica answers from an index: each kind of start when it is asked
/// for it, hops without filters from rows that bind where they start, checks
/// of rows that bind what they join, and properties.
pub open spec fn serves<R: PartitionRpc>(
    rpc: R,
    replica: ReplicaEndpointView,
    g: IndexGeneration,
) -> bool {
    &&& forall|step: PlanStepView, reply: Result<Seq<BindingView>, ExecutionErrorView>| #[trigger]
        rpc.start_answer(replica, step, reply) && step is ResolveStart ==> reply
            == local_executor::resolved_start(g, step)
    &&& forall|step: PlanStepView, reply: Result<Seq<BindingView>, ExecutionErrorView>| #[trigger]
        rpc.all_answer(replica, step, reply) && step is ResolveAll ==> reply
            == local_executor::resolved_all(g, step)
    &&& forall|
        hop: ExpandHopView,
        frontier: Seq<BindingView>,
        reply: Result<FrontierView, ExecutionErrorView>,
    | #[trigger]
        rpc.hop_answer(replica, PlanStepView::ExpandHop(hop), frontier, reply)
            && hop.filters.len() == 0 && local_executor::all_bind(frontier, hop.from_alias)
            && grpc_partition_rpc::not_empty(hop.to_label) && grpc_partition_rpc::not_empty(
            hop.edge_type,
        ) && grpc_partition_rpc::not_empty(hop.edge_alias) ==> distributed::flat(reply) == distributed::flat(
            local_executor::expanded(g, hop, frontier),
        )
    &&& forall|
        step: AntiJoinStepView,
        conditions: Seq<PropertyFilterView>,
        frontier: Seq<BindingView>,
        reply: Result<Seq<BindingView>, ExecutionErrorView>,
    | #[trigger]
        rpc.check_answer(replica, step, conditions, frontier, reply)
            && grpc_partition_rpc::not_empty(step.edge_type) && grpc_partition_rpc::doubles_known(
            conditions,
        ) && local_executor::first_unbound(frontier, step) is None ==> reply
            == local_executor::checked(g, step, conditions, frontier)
    &&& forall|
        ids: Seq<NodeId>,
        reply: Result<Seq<(NodeId, NodeRecordView)>, ExecutionErrorView>,
    | #[trigger]
        rpc.nodes_answer(replica, ids, reply) ==> reply == Ok::<
            Seq<(NodeId, NodeRecordView)>,
            ExecutionErrorView,
        >(told_nodes(g, ids))
    &&& forall|
        ids: Seq<EdgeId>,
        reply: Result<Seq<(EdgeId, EdgeRecordView)>, ExecutionErrorView>,
    | #[trigger]
        rpc.edges_answer(replica, ids, reply) ==> reply == Ok::<
            Seq<(EdgeId, EdgeRecordView)>,
            ExecutionErrorView,
        >(told_edges(g, ids))
}

/// The records of nodes that a partition tells of.
pub open spec fn told_nodes(g: IndexGeneration, ids: Seq<NodeId>) -> Seq<(NodeId, NodeRecordView)> {
    grpc_partition_rpc::received_nodes(
        service::known_nodes(ids.map_values(|id: NodeId| id.0), g.node_records.map()),
    )
}

/// The records of edges that a partition tells of.
pub open spec fn told_edges(g: IndexGeneration, ids: Seq<EdgeId>) -> Seq<(EdgeId, EdgeRecordView)> {
    grpc_partition_rpc::received_edges(
        service::known_edges(ids.map_values(|id: EdgeId| id.0), g.edge_records.map()),
    )
}

/// That every partition has a healthy replica, and that the one that is asked
/// answers from the index of its partition.
pub open spec fn all_serve<R: PartitionRpc>(rpc: R, map: PartitionMap, gs: Seq<IndexGeneration>) -> bool {
    &&& agreement::covers(map.known(), gs)
    &&& forall|p: u32|
        p < gs.len() ==> (#[trigger] map.choice(p)) is Some && serves(
            rpc,
            map.choice(p)->Some_0,
            gs[p as int],
        )
}

/// All records of an index.
pub open spec fn records_of(g: IndexGeneration) -> RecordsView {
    RecordsView {
        nodes: builder::node_record_views(g.node_records.map()),
        edges: builder::edge_record_views(g.edge_records.map()),
    }
}

/// Whether an index has an edge that a `NOT EXISTS` forbids for a row. None
/// meets a condition that has no value.
pub open spec fn excluded(g: IndexGeneration, step: AntiJoinStepView, b: BindingView) -> bool {
    match hydration::resolved_conditions(b, step, records_of(g)) {
        Some(conditions) => local_executor::has_forbidden(g, step, conditions, b),
        None => false,
    }
}

/// The rows that a `NOT EXISTS` leaves on one index.
pub open spec fn left_by(g: IndexGeneration, step: AntiJoinStepView, rows: Seq<BindingView>) -> Seq<
    BindingView,
>
    decreases rows.len(),
{
    if rows.len() == 0 {
        seq![]
    } else {
        let rest = left_by(g, step, rows.drop_last());
        if excluded(g, step, rows.last()) {
            rest
        } else {
            rest.push(rows.last())
        }
    }
}

/// The rows after step `k` on one index.
pub open spec fn rows_on(g: IndexGeneration, steps: Seq<PlanStepView>, k: nat) -> Seq<BindingView>
    decreases k,
{
    if k == 0 {
        match steps[0] {
            PlanStepView::ResolveStart { .. } => local_executor::resolved_start(
                g,
                steps[0],
            )->Ok_0,
            _ => local_executor::resolved_all(g, steps[0])->Ok_0,
        }
    } else {
        let rows = rows_on(g, steps, (k - 1) as nat);
        match steps[k as int] {
            PlanStepView::ExpandHop(hop) => hydration::keep_meeting(
                local_executor::expand_rows(g.topology, hop, rows).local,
                distributed::hop_conditions(hop),
                records_of(g),
            ),
            PlanStepView::AntiJoin(anti) => left_by(g, anti, rows),
            _ => seq![],
        }
    }
}

/// The rows of a plan on one index.
pub open spec fn plan_on(g: IndexGeneration, plan: QueryPlanView) -> Seq<BindingView> {
    hydration::keep_meeting(
        rows_on(g, plan.steps, (plan.steps.len() - 1) as nat),
        plan.remaining,
        records_of(g),
    )
}

proof fn lemma_routes_healthy<T>(
    map: PartitionMap,
    partitions: Seq<u32>,
    items: Seq<T>,
    owners: Seq<u32>,
)
    requires
        forall|i: int| 0 <= i < partitions.len() ==> map.choice(#[trigger] partitions[i]) is Some,
    ensures
        routing::routes_to(map, partitions, items, owners).len() == partitions.len(),
        forall|i: int|
            0 <= i < partitions.len() ==> (#[trigger] routing::routes_to(
                map,
                partitions,
                items,
                owners,
            )[i]) == (
                map.choice(partitions[i])->Some_0,
                routing::members(items, owners, partitions[i]),
            ),
    decreases partitions.len(),
{
    if partitions.len() > 0 {
        let shorter = partitions.drop_last();
        assert forall|i: int| 0 <= i < shorter.len() implies map.choice(
            #[trigger] shorter[i],
        ) is Some by {
            assert(shorter[i] == partitions[i]);
        }
        lemma_routes_healthy(map, shorter, items, owners);
        assert(map.choice(partitions[partitions.len() - 1]) is Some);
        let all = routing::routes_to(map, partitions, items, owners);
        let rest = routing::routes_to(map, shorter, items, owners);
        assert forall|i: int| 0 <= i < partitions.len() implies (#[trigger] all[i]) == (
            map.choice(partitions[i])->Some_0,
            routing::members(items, owners, partitions[i]),
        ) by {
            if i < shorter.len() {
                assert(all[i] == rest[i]);
                assert(shorter[i] == partitions[i]);
            }
        }
    }
}

proof fn lemma_targets_healthy(map: PartitionMap, known: Seq<u64>)
    requires
        forall|i: int|
            0 <= i < known.len() ==> map.choice((#[trigger] known[i]) as u32) is Some,
    ensures
        distributed::broadcast_targets(map, known).len() == known.len(),
        forall|i: int|
            0 <= i < known.len() ==> (#[trigger] distributed::broadcast_targets(map, known)[i])
                == map.choice(known[i] as u32)->Some_0,
    decreases known.len(),
{
    if known.len() > 0 {
        let shorter = known.drop_last();
        assert forall|i: int| 0 <= i < shorter.len() implies map.choice(
            (#[trigger] shorter[i]) as u32,
        ) is Some by {
            assert(shorter[i] == known[i]);
        }
        lemma_targets_healthy(map, shorter);
        assert(map.choice(known[known.len() - 1] as u32) is Some);
        let all = distributed::broadcast_targets(map, known);
        let rest = distributed::broadcast_targets(map, shorter);
        assert forall|i: int| 0 <= i < known.len() implies (#[trigger] all[i]) == map.choice(
            known[i] as u32,
        )->Some_0 by {
            if i < shorter.len() {
                assert(all[i] == rest[i]);
                assert(shorter[i] == known[i]);
            }
        }
    }
}

proof fn lemma_start_agrees<R: PartitionRpc>(
    rpc: R,
    map: PartitionMap,
    g: IndexGeneration,
    gs: Seq<IndexGeneration>,
    s: SchemaView,
    nodes: Seq<ScannedNodeView>,
    edges: Seq<ScannedEdgeView>,
    steps: Seq<PlanStepView>,
    replies: Seq<Result<Seq<BindingView>, ExecutionErrorView>>,
)
    requires
        agreement::holds_all(g, s, nodes, edges),
        agreement::divides(gs, s, nodes, edges),
        all_serve(rpc, map, gs),
        steps[0] is ResolveStart || steps[0] is ResolveAll,
        distributed::asked_start(
            rpc,
            distributed::broadcast_targets(map, map.known()),
            steps[0],
            replies,
        ),
    ensures
        distributed::start_outcome(replies) is Ok,
        forall|row: BindingView|
            (distributed::start_outcome(replies)->Ok_0).contains(row) <==> #[trigger] rows_on(
                g,
                steps,
                0,
            ).contains(row),
{
    let known = map.known();
    let step = steps[0];
    let targets = distributed::broadcast_targets(map, known);
    assert forall|i: int| 0 <= i < known.len() implies map.choice(
        (#[trigger] known[i]) as u32,
    ) is Some && known[i] < gs.len() by {
        assert(known.contains(known[i]));
    }
    lemma_targets_healthy(map, known);
    assert forall|i: int| 0 <= i < replies.len() implies (#[trigger] replies[i]) == (
    if step is ResolveStart {
        local_executor::resolved_start(gs[known[i] as int], step)
    } else {
        local_executor::resolved_all(gs[known[i] as int], step)
    }) by {
        let p = known[i] as u32;
        assert(known.contains(known[i]));
        assert(map.choice(p) is Some);
        assert(targets[i] == map.choice(p)->Some_0);
        assert(distributed::asked_one_start(rpc, targets[i], step, replies[i]));
        assert(serves(rpc, targets[i], gs[p as int]));
    }
    assert forall|i: int| 0 <= i < replies.len() implies (#[trigger] replies[i]) is Ok by {}
    agreement::lemma_gathered(replies, BindingView::of_node(seq![], NodeId(0)));
    assert forall|row: BindingView|
        (distributed::start_outcome(replies)->Ok_0).contains(row) <==> #[trigger] rows_on(
            g,
            steps,
            0,
        ).contains(row) by {
        if step is ResolveStart {
            agreement::law_a_start_is_the_same_divided_or_not(
                g,
                gs,
                s,
                nodes,
                edges,
                step,
                known,
                replies,
                row,
            );
        } else {
            agreement::law_a_label_is_the_same_divided_or_not(
                g,
                gs,
                s,
                nodes,
                edges,
                step,
                known,
                replies,
                row,
            );
        }
    }
}

/// That two lists hold the same rows, in whatever order.
pub open spec fn same_rows(a: Seq<BindingView>, b: Seq<BindingView>) -> bool {
    forall|row: BindingView| #[trigger] a.contains(row) <==> b.contains(row)
}

/// The rounds of a hop were answered from the indexes of the partitions.
proof fn lemma_rounds_answered<R: PartitionRpc>(
    rpc: R,
    map: PartitionMap,
    gs: Seq<IndexGeneration>,
    hop: ExpandHopView,
    frontier: Seq<BindingView>,
    rounds: Seq<Seq<Result<FrontierView, ExecutionErrorView>>>,
)
    requires
        0 < gs.len() <= u32::MAX,
        all_serve(rpc, map, gs),
        grpc_partition_rpc::not_empty(hop.edge_type),
        grpc_partition_rpc::not_empty(hop.edge_alias),
        distributed::asked_hop(rpc, map, gs.len() as u32, hop, frontier, rounds),
    ensures
        agreement::all_answered(gs, map, hop, frontier, rounds),
{
    let n = gs.len() as u32;
    assert forall|k: nat|
        #![trigger distributed::round_step(hop, k)]
        1 <= k <= hop.hops.max implies (distributed::hop_run(
        map,
        n,
        hop,
        frontier,
        rounds,
        (k - 1) as nat,
    ) matches Ok((current, _)) ==> (current.len() > 0 && local_executor::all_bind(
        current,
        distributed::cursor(hop, k),
    ) ==> agreement::answered(gs, distributed::round_step(hop, k), current, rounds[k - 1]))) by {
        if let Ok((current, _)) = distributed::hop_run(
            map,
            n,
            hop,
            frontier,
            rounds,
            (k - 1) as nat,
        ) {
            let alias = distributed::cursor(hop, k);
            if current.len() > 0 && local_executor::all_bind(current, alias) {
                let step = distributed::round_step(hop, k);
                let replies = rounds[k - 1];
                assert(distributed::asked_kth_round(rpc, map, n, hop, frontier, rounds, k));
                let owners = routing::row_owners(current, alias, n);
                let asked = routing::distinct(owners);
                let routes = routing::routes_of(map, current, owners);
                assert forall|i: int| 0 <= i < asked.len() implies map.choice(
                    #[trigger] asked[i],
                ) is Some && asked[i] < n by {
                    assert(asked.contains(asked[i]));
                    routing::lemma_distinct(owners, asked[i]);
                    let j = choose|j: int| 0 <= j < owners.len() && owners[j] == asked[i];
                    partitioning::law_every_node_has_one_owner(current[j].nodes[alias], n);
                }
                lemma_routes_healthy(map, asked, current, owners);
                assert(distributed::asked_round(
                    rpc,
                    routes,
                    PlanStepView::ExpandHop(step),
                    replies,
                ));
                assert forall|j: int| 0 <= j < replies.len() implies distributed::flat(
                    #[trigger] replies[j],
                ) == distributed::flat(
                    local_executor::expanded(
                        gs[asked[j] as int],
                        step,
                        routing::members(current, owners, asked[j]),
                    ),
                ) && distributed::flat(replies[j]) is Ok by {
                    assert(routes[j] == (
                        map.choice(asked[j])->Some_0,
                        routing::members(current, owners, asked[j]),
                    ));
                    assert(map.choice(asked[j]) is Some);
                    assert(serves(rpc, routes[j].0, gs[asked[j] as int]));
                    assert(rpc.hop_answer(
                        routes[j].0,
                        PlanStepView::ExpandHop(step),
                        routes[j].1,
                        replies[j],
                    ));
                    agreement::lemma_members_bind(current, owners, asked[j], alias);
                }
                let flat = distributed::flat_all(replies);
                assert forall|j: int| 0 <= j < flat.len() implies (#[trigger] flat[j]) is Ok by {
                    assert(distributed::flat(replies[j]) is Ok);
                }
                agreement::lemma_gathered(flat, current[0]);
                assert(replies.len() == asked.len());
                assert(agreement::answered(gs, step, current, replies));
            }
        }
    }
}

/// The rows of a hop before filters: where the rows before it agree, so do
/// these.
proof fn lemma_hop_agrees<R: PartitionRpc>(
    rpc: R,
    map: PartitionMap,
    g: IndexGeneration,
    gs: Seq<IndexGeneration>,
    s: SchemaView,
    nodes: Seq<ScannedNodeView>,
    edges: Seq<ScannedEdgeView>,
    hop: ExpandHopView,
    rows: Seq<BindingView>,
    whole: Seq<BindingView>,
    rounds: Seq<Seq<Result<FrontierView, ExecutionErrorView>>>,
)
    requires
        agreement::holds_all(g, s, nodes, edges),
        agreement::divides(gs, s, nodes, edges),
        agreement::no_dangling(nodes, edges),
        all_serve(rpc, map, gs),
        grpc_partition_rpc::not_empty(hop.edge_type),
        grpc_partition_rpc::not_empty(hop.edge_alias),
        same_rows(rows, whole),
        local_executor::all_bind(rows, hop.from_alias),
        distributed::asked_hop(rpc, map, gs.len() as u32, hop, rows, rounds),
    ensures
        distributed::hop_outcome(map, gs.len() as u32, hop, rows, rounds) is Ok,
        same_rows(
            distributed::hop_outcome(map, gs.len() as u32, hop, rows, rounds)->Ok_0,
            local_executor::expand_rows(g.topology, hop, whole).local,
        ),
{
    let n = gs.len() as u32;
    let t = g.topology;
    lemma_rounds_answered(rpc, map, gs, hop, rows, rounds);
    agreement::law_a_hop_is_the_same_divided_or_not(
        g,
        gs,
        s,
        nodes,
        edges,
        map,
        hop,
        rows,
        rounds,
        BindingView::of_node(seq![], NodeId(0)),
    );
    let out = distributed::hop_outcome(map, n, hop, rows, rounds)->Ok_0;
    let there = local_executor::expand_rows(t, hop, whole).local;
    assert forall|row: BindingView| #[trigger] out.contains(row) <==> there.contains(row) by {
        agreement::law_a_hop_is_the_same_divided_or_not(
            g,
            gs,
            s,
            nodes,
            edges,
            map,
            hop,
            rows,
            rounds,
            row,
        );
        if local_executor::expand_rows(t, hop, rows).local.contains(row) {
            lemma_expanded_by_members(t, hop, rows, whole, row);
        }
        if there.contains(row) {
            lemma_expanded_by_members(t, hop, whole, rows, row);
        }
    }
}

/// A hop that is walked round by round over a cluster gives, each once, the
/// rows that the same hop without filters gives on one index of the whole
/// graph. Every round is asked as one hop without filters.
pub proof fn law_a_hop_over_a_cluster_is_a_hop_on_the_graph<R: PartitionRpc>(
    rpc: R,
    map: PartitionMap,
    g: IndexGeneration,
    gs: Seq<IndexGeneration>,
    s: SchemaView,
    nodes: Seq<ScannedNodeView>,
    edges: Seq<ScannedEdgeView>,
    hop: ExpandHopView,
    frontier: Seq<BindingView>,
    rounds: Seq<Seq<Result<FrontierView, ExecutionErrorView>>>,
    k: nat,
)
    requires
        agreement::holds_all(g, s, nodes, edges),
        agreement::divides(gs, s, nodes, edges),
        agreement::no_dangling(nodes, edges),
        all_serve(rpc, map, gs),
        grpc_partition_rpc::not_empty(hop.edge_type),
        grpc_partition_rpc::not_empty(hop.edge_alias),
        local_executor::all_bind(frontier, hop.from_alias),
        distributed::asked_hop(rpc, map, gs.len() as u32, hop, frontier, rounds),
    ensures
        distributed::hop_outcome(map, gs.len() as u32, hop, frontier, rounds) is Ok,
        (distributed::hop_outcome(
            map,
            gs.len() as u32,
            hop,
            frontier,
            rounds,
        )->Ok_0).no_duplicates(),
        local_executor::expanded(g, unfiltered(hop), frontier) is Ok,
        same_rows(
            distributed::hop_outcome(map, gs.len() as u32, hop, frontier, rounds)->Ok_0,
            (local_executor::expanded(g, unfiltered(hop), frontier)->Ok_0).local,
        ),
        distributed::round_step(hop, k).hops.min == 1,
        distributed::round_step(hop, k).hops.max == 1,
        distributed::round_step(hop, k).filters.len() == 0,
{
    lemma_hop_agrees(rpc, map, g, gs, s, nodes, edges, hop, frontier, frontier, rounds);
    lemma_unfiltered_rows(g.topology, hop, frontier);
    lemma_accepted_once(map, gs.len() as u32, hop, frontier, rounds, hop.hops.max as nat);
}

/// Rows are accepted once.
proof fn lemma_accepted_once(
    map: PartitionMap,
    n: u32,
    hop: ExpandHopView,
    frontier: Seq<BindingView>,
    rounds: Seq<Seq<Result<FrontierView, ExecutionErrorView>>>,
    k: nat,
)
    ensures
        distributed::hop_run(map, n, hop, frontier, rounds, k) matches Ok((_, accepted))
            ==> accepted.no_duplicates(),
    decreases k,
{
    if k > 0 {
        let m = (k - 1) as nat;
        lemma_accepted_once(map, n, hop, frontier, rounds, m);
        if let Ok((current, accepted)) = distributed::hop_run(map, n, hop, frontier, rounds, m) {
            if let Ok(next) = distributed::round_outcome(
                map,
                current,
                distributed::cursor(hop, k),
                n,
                rounds[k - 1],
            ) {
                walk::lemma_union_new(accepted, next, BindingView::of_node(seq![], NodeId(0)));
            }
        }
    }
}

/// A hop without its filters.
pub open spec fn unfiltered(hop: ExpandHopView) -> ExpandHopView {
    ExpandHopView { filters: seq![], ..hop }
}

/// The filters of a hop have no part in which edges it walks.
proof fn lemma_unfiltered_edges(
    b: BindingView,
    hop: ExpandHopView,
    entries: Seq<AdjacencyEntryView>,
)
    ensures
        local_executor::edge_rows(b, unfiltered(hop), entries) == local_executor::edge_rows(
            b,
            hop,
            entries,
        ),
        local_executor::edge_rows_beyond(b, unfiltered(hop), entries)
            == local_executor::edge_rows_beyond(b, hop, entries),
    decreases entries.len(),
{
    if entries.len() > 0 {
        lemma_unfiltered_edges(b, hop, entries.drop_last());
    }
}

/// The filters of a hop have no part in what its rows expand to.
proof fn lemma_unfiltered_rows(
    t: TopologicalIndex,
    hop: ExpandHopView,
    frontier: Seq<BindingView>,
)
    ensures
        local_executor::expand_rows(t, unfiltered(hop), frontier) == local_executor::expand_rows(
            t,
            hop,
            frontier,
        ),
    decreases frontier.len(),
{
    if frontier.len() > 0 {
        lemma_unfiltered_rows(t, hop, frontier.drop_last());
        let start = frontier.last().nodes[hop.from_alias];
        lemma_unfiltered_edges(
            frontier.last(),
            hop,
            walk::entries_of(t, start, hop.direction),
        );
    }
}

/// Which rows a hop gives depends on which rows there are alone.
proof fn lemma_expanded_by_members(
    t: TopologicalIndex,
    hop: ExpandHopView,
    a: Seq<BindingView>,
    b: Seq<BindingView>,
    row: BindingView,
)
    requires
        same_rows(a, b) || same_rows(b, a),
        local_executor::expand_rows(t, hop, a).local.contains(row),
    ensures
        local_executor::expand_rows(t, hop, b).local.contains(row),
{
    agreement::lemma_expand_rows(t, hop, a, row);
    agreement::lemma_expand_rows(t, hop, b, row);
    let i = choose|i: int|
        0 <= i < a.len() && local_executor::expand_row(t, hop, #[trigger] a[i]).local.contains(row);
    assert(a.contains(a[i]));
    assert(b.contains(a[i]));
    let j = choose|j: int| 0 <= j < b.len() && b[j] == a[i];
    assert(local_executor::expand_row(t, hop, b[j]).local.contains(row));
}

pub proof fn lemma_keep_meeting(
    rows: Seq<BindingView>,
    conditions: Seq<(Seq<char>, PropertyFilterView)>,
    records: RecordsView,
    row: BindingView,
)
    ensures
        hydration::keep_meeting(rows, conditions, records).contains(row) <==> rows.contains(row)
            && hydration::meets_all(row, conditions, records),
    decreases rows.len(),
{
    if rows.len() > 0 {
        let shorter = rows.drop_last();
        lemma_keep_meeting(shorter, conditions, records, row);
        assert(rows =~= shorter.push(rows.last()));
        laws::lemma_contains_push(shorter, rows.last(), row);
        laws::lemma_contains_push(
            hydration::keep_meeting(shorter, conditions, records),
            rows.last(),
            row,
        );
    }
}

pub proof fn lemma_left_by(
    g: IndexGeneration,
    step: AntiJoinStepView,
    rows: Seq<BindingView>,
    row: BindingView,
)
    ensures
        left_by(g, step, rows).contains(row) <==> rows.contains(row) && !excluded(g, step, row),
    decreases rows.len(),
{
    if rows.len() > 0 {
        let shorter = rows.drop_last();
        lemma_left_by(g, step, shorter, row);
        assert(rows =~= shorter.push(rows.last()));
        laws::lemma_contains_push(shorter, rows.last(), row);
        laws::lemma_contains_push(left_by(g, step, shorter), rows.last(), row);
    }
}

/// The alias of the node that the edge of a hop comes from.
pub open spec fn source_alias(hop: ExpandHopView) -> Seq<char> {
    match hop.direction {
        Direction::Outgoing => hop.from_alias,
        Direction::Incoming => hop.to_alias,
    }
}

/// That an edge alias of a row was bound by step `i`, to the scanned edge `e`,
/// whose source the row binds.
pub open spec fn edge_kept(
    steps: Seq<PlanStepView>,
    edges: Seq<ScannedEdgeView>,
    b: BindingView,
    alias: Seq<char>,
    i: int,
    e: int,
) -> bool {
    &&& 0 <= i < steps.len()
    &&& steps[i] matches PlanStepView::ExpandHop(hop)
    &&& hop.edge_alias == Some(alias)
    &&& 0 <= e < edges.len()
    &&& edges[e].row.id == b.edges[alias]
    &&& b.nodes.dom().contains(source_alias(hop))
    &&& edges[e].row.src == b.nodes[source_alias(hop)]
}

/// What every row after step `k` is like: it binds the aliases so far, and
/// with each edge the source of that edge.
pub open spec fn sound(
    steps: Seq<PlanStepView>,
    edges: Seq<ScannedEdgeView>,
    k: nat,
    b: BindingView,
) -> bool {
    &&& b.nodes.dom() == bound(steps, k)
    &&& forall|alias: Seq<char>| #[trigger]
        b.edges.dom().contains(alias) ==> exists|i: int, e: int|
            i <= k && #[trigger] edge_kept(steps, edges, b, alias, i, e)
}

/// A row of a hop on the undivided graph comes over an edge, or leaves the
/// edges as they are.
pub proof fn lemma_whole_hop(
    g: IndexGeneration,
    s: SchemaView,
    nodes: Seq<ScannedNodeView>,
    edges: Seq<ScannedEdgeView>,
    hop: ExpandHopView,
    b: BindingView,
    row: BindingView,
)
    requires
        agreement::holds_all(g, s, nodes, edges),
        agreement::no_dangling(nodes, edges),
        local_executor::expand_row(g.topology, hop, b).local.contains(row),
    ensures
        local_executor::binds_edge(hop) ==> agreement::one_edge(edges, hop, b, row),
        !local_executor::binds_edge(hop) ==> exists|y: NodeId|
            row == #[trigger] b.with_node(hop.to_alias, y),
{
    let t = g.topology;
    let f = local_executor::expand_row(t, hop, b);
    if local_executor::binds_edge(hop) {
        partitioning::law_every_node_has_one_owner(b.nodes[hop.from_alias], 1);
        agreement::law_a_hop_follows_the_edges_of_the_graph(
            g,
            s,
            0,
            1,
            nodes,
            edges,
            hop,
            b,
            row,
        );
        laws::lemma_contains_add(
            f.local,
            Seq::new(f.remote.len(), |i: int| f.remote[i].1),
            row,
        );
    } else {
        let i = choose|i: int| 0 <= i < f.local.len() && f.local[i] == row;
        let hits = walk::hits_within(
            t,
            hop.direction,
            hop.edge_type,
            b.nodes[hop.from_alias],
            hop.hops.min as nat,
            hop.hops.max as nat,
        );
        assert(row == b.with_node(hop.to_alias, hits[i]));
    }
}

/// A sound row stays sound over a hop.
proof fn lemma_sound_hop(
    steps: Seq<PlanStepView>,
    edges: Seq<ScannedEdgeView>,
    k: nat,
    hop: ExpandHopView,
    b: BindingView,
    row: BindingView,
)
    requires
        1 <= k < steps.len(),
        steps[k as int] == PlanStepView::ExpandHop(hop),
        follows(steps, k),
        edges_named_once(steps),
        sound(steps, edges, (k - 1) as nat, b),
        local_executor::binds_edge(hop) ==> agreement::one_edge(edges, hop, b, row),
        !local_executor::binds_edge(hop) ==> exists|y: NodeId|
            row == #[trigger] b.with_node(hop.to_alias, y),
    ensures
        sound(steps, edges, k, row),
{
    let before = bound(steps, (k - 1) as nat);
    if local_executor::binds_edge(hop) {
        let x = choose|x: int|
            0 <= x < edges.len() && agreement::over_edge(#[trigger] edges[x], hop, b, row);
        let outgoing = agreement::is_outgoing(hop.direction);
        let far = builder::far_end(edges[x].row, outgoing);
        let name = hop.edge_alias->Some_0;
        assert(row == b.with_node(hop.to_alias, far).with_edge(name, edges[x].row.id));
        assert(row.nodes.dom() =~= bound(steps, k));
        assert(row.nodes[hop.to_alias] == far);
        assert(row.nodes[hop.from_alias] == b.nodes[hop.from_alias]);
        assert forall|alias: Seq<char>| #[trigger] row.edges.dom().contains(alias) implies exists|
            i: int,
            e: int,
        |
            i <= k && #[trigger] edge_kept(steps, edges, row, alias, i, e) by {
            if alias == name {
                assert(edge_kept(steps, edges, row, alias, k as int, x));
            } else {
                assert(b.edges.dom().contains(alias));
                let (i, e) = choose|i: int, e: int|
                    i <= k - 1 && #[trigger] edge_kept(steps, edges, b, alias, i, e);
                let source = source_alias(steps[i]->ExpandHop_0);
                assert(before.contains(source));
                assert(row.nodes[source] == b.nodes[source]);
                assert(edge_kept(steps, edges, row, alias, i, e));
            }
        }
    } else {
        let y = choose|y: NodeId| row == #[trigger] b.with_node(hop.to_alias, y);
        assert(row.nodes.dom() =~= bound(steps, k));
        assert forall|alias: Seq<char>| #[trigger] row.edges.dom().contains(alias) implies exists|
            i: int,
            e: int,
        |
            i <= k && #[trigger] edge_kept(steps, edges, row, alias, i, e) by {
            assert(b.edges.dom().contains(alias));
            let (i, e) = choose|i: int, e: int|
                i <= k - 1 && #[trigger] edge_kept(steps, edges, b, alias, i, e);
            let source = source_alias(steps[i]->ExpandHop_0);
            assert(before.contains(source));
            assert(row.nodes[source] == b.nodes[source]);
            assert(edge_kept(steps, edges, row, alias, i, e));
        }
    }
}

/// The rows on the undivided graph are sound.
pub proof fn lemma_rows_are_sound(
    g: IndexGeneration,
    s: SchemaView,
    nodes: Seq<ScannedNodeView>,
    edges: Seq<ScannedEdgeView>,
    steps: Seq<PlanStepView>,
    k: nat,
    row: BindingView,
)
    requires
        agreement::holds_all(g, s, nodes, edges),
        agreement::no_dangling(nodes, edges),
        chained(steps),
        k < steps.len(),
        rows_on(g, steps, k).contains(row),
    ensures
        sound(steps, edges, k, row),
    decreases k,
{
    let all = rows_on(g, steps, k);
    if k == 0 {
        let i = choose|i: int| 0 <= i < all.len() && all[i] == row;
        assert(row.nodes.dom() =~= bound(steps, 0));
    } else {
        let m = (k - 1) as nat;
        let rows = rows_on(g, steps, m);
        assert(follows(steps, k));
        match steps[k as int] {
            PlanStepView::ExpandHop(hop) => {
                let reached = local_executor::expand_rows(g.topology, hop, rows).local;
                lemma_keep_meeting(
                    reached,
                    distributed::hop_conditions(hop),
                    records_of(g),
                    row,
                );
                agreement::lemma_expand_rows(g.topology, hop, rows, row);
                let i = choose|i: int|
                    0 <= i < rows.len() && local_executor::expand_row(
                        g.topology,
                        hop,
                        #[trigger] rows[i],
                    ).local.contains(row);
                assert(rows.contains(rows[i]));
                lemma_rows_are_sound(g, s, nodes, edges, steps, m, rows[i]);
                lemma_whole_hop(g, s, nodes, edges, hop, rows[i], row);
                lemma_sound_hop(steps, edges, k, hop, rows[i], row);
            },
            PlanStepView::AntiJoin(anti) => {
                lemma_left_by(g, anti, rows, row);
                lemma_rows_are_sound(g, s, nodes, edges, steps, m, row);
                assert forall|alias: Seq<char>| #[trigger]
                    row.edges.dom().contains(alias) implies exists|i: int, e: int|
                    i <= k && #[trigger] edge_kept(steps, edges, row, alias, i, e) by {
                    let (i, e) = choose|i: int, e: int|
                        i <= m && #[trigger] edge_kept(steps, edges, row, alias, i, e);
                    assert(i <= k && edge_kept(steps, edges, row, alias, i, e));
                }
            },
            _ => {},
        }
    }
}

/// The edge of an alias comes from where its hop says.
proof fn lemma_edge_source(steps: Seq<PlanStepView>, alias: Seq<char>, i: int)
    requires
        edges_named_once(steps),
        0 <= i < steps.len(),
        steps[i] matches PlanStepView::ExpandHop(hop) && hop.edge_alias == Some(alias),
    ensures
        hydration::edge_source(steps, alias) == Some(source_alias(steps[i]->ExpandHop_0)),
    decreases steps.len(),
{
    if i > 0 {
        let rest = steps.drop_first();
        assert forall|a: int, b: int|
            0 <= a < b < rest.len() && (#[trigger] rest[a]) is ExpandHop && (
            #[trigger] rest[b]) is ExpandHop && (
            rest[a]->ExpandHop_0).edge_alias is Some implies (rest[a]->ExpandHop_0).edge_alias
            != (rest[b]->ExpandHop_0).edge_alias by {
            assert(rest[a] == steps[a + 1]);
            assert(rest[b] == steps[b + 1]);
        }
        assert(rest[i - 1] == steps[i]);
        lemma_edge_source(rest, alias, i - 1);
        assert(steps[0] is ExpandHop && (steps[0]->ExpandHop_0).edge_alias is Some ==> (
        steps[0]->ExpandHop_0).edge_alias != (steps[i]->ExpandHop_0).edge_alias);
    }
}

/// Properties once they have gone over the wire.
pub open spec fn arrived(properties: Map<Seq<char>, PropertyValueView>) -> Map<
    Seq<char>,
    PropertyValueView,
> {
    wire::received_fields(wire::sent_fields(properties))
}

pub open spec fn arrived_node(r: NodeRecordView) -> NodeRecordView {
    NodeRecordView { label: r.label, properties: arrived(r.properties) }
}

pub open spec fn arrived_edge(r: EdgeRecordView) -> EdgeRecordView {
    EdgeRecordView { edge_type: r.edge_type, properties: arrived(r.properties) }
}

/// That records of nodes are as they arrive.
pub open spec fn nodes_true(
    pairs: Seq<(NodeId, NodeRecordView)>,
    m: Map<u64, NodeRecordView>,
) -> bool {
    forall|i: int|
        0 <= i < pairs.len() ==> m.dom().contains((#[trigger] pairs[i]).0.0) && pairs[i].1
            == arrived_node(m[pairs[i].0.0])
}

/// That records of edges are as they arrive.
pub open spec fn edges_true(
    pairs: Seq<(EdgeId, EdgeRecordView)>,
    m: Map<u64, EdgeRecordView>,
) -> bool {
    forall|i: int|
        0 <= i < pairs.len() ==> m.dom().contains((#[trigger] pairs[i]).0.0) && pairs[i].1
            == arrived_edge(m[pairs[i].0.0])
}

proof fn lemma_known_nodes(ids: Seq<u64>, records: Map<u64, NodeRecord>, id: u64)
    ensures
        forall|i: int|
            0 <= i < service::known_nodes(ids, records).len() ==> records.dom().contains(
                (#[trigger] service::known_nodes(ids, records)[i]).0,
            ) && service::known_nodes(ids, records)[i].1.name == records[service::known_nodes(
                ids,
                records,
            )[i].0]@.label && service::known_nodes(ids, records)[i].1.fields == wire::sent_fields(
                records[service::known_nodes(ids, records)[i].0]@.properties,
            ),
        ids.contains(id) && records.dom().contains(id) ==> exists|i: int|
            0 <= i < service::known_nodes(ids, records).len() && (#[trigger] service::known_nodes(
                ids,
                records,
            )[i]).0 == id,
    decreases ids.len(),
{
    if ids.len() > 0 {
        let shorter = ids.drop_last();
        lemma_known_nodes(shorter, records, id);
        let rest = service::known_nodes(shorter, records);
        let all = service::known_nodes(ids, records);
        assert forall|i: int| 0 <= i < rest.len() implies all[i] == #[trigger] rest[i] by {}
        assert(ids =~= shorter.push(ids.last()));
        laws::lemma_contains_push(shorter, ids.last(), id);
        if ids.contains(id) && records.dom().contains(id) {
            if shorter.contains(id) {
                let i = choose|i: int| 0 <= i < rest.len() && (#[trigger] rest[i]).0 == id;
                assert(all[i].0 == id);
            } else {
                assert(all[rest.len() as int].0 == id);
            }
        }
    }
}

proof fn lemma_known_edges(ids: Seq<u64>, records: Map<u64, EdgeRecord>, id: u64)
    ensures
        forall|i: int|
            0 <= i < service::known_edges(ids, records).len() ==> records.dom().contains(
                (#[trigger] service::known_edges(ids, records)[i]).0,
            ) && service::known_edges(ids, records)[i].1.name == records[service::known_edges(
                ids,
                records,
            )[i].0]@.edge_type && service::known_edges(ids, records)[i].1.fields
                == wire::sent_fields(records[service::known_edges(ids, records)[i].0]@.properties),
        ids.contains(id) && records.dom().contains(id) ==> exists|i: int|
            0 <= i < service::known_edges(ids, records).len() && (#[trigger] service::known_edges(
                ids,
                records,
            )[i]).0 == id,
    decreases ids.len(),
{
    if ids.len() > 0 {
        let shorter = ids.drop_last();
        lemma_known_edges(shorter, records, id);
        let rest = service::known_edges(shorter, records);
        let all = service::known_edges(ids, records);
        assert forall|i: int| 0 <= i < rest.len() implies all[i] == #[trigger] rest[i] by {}
        assert(ids =~= shorter.push(ids.last()));
        laws::lemma_contains_push(shorter, ids.last(), id);
        if ids.contains(id) && records.dom().contains(id) {
            if shorter.contains(id) {
                let i = choose|i: int| 0 <= i < rest.len() && (#[trigger] rest[i]).0 == id;
                assert(all[i].0 == id);
            } else {
                assert(all[rest.len() as int].0 == id);
            }
        }
    }
}

proof fn lemma_told_nodes(g: IndexGeneration, ids: Seq<NodeId>, id: NodeId)
    ensures
        nodes_true(told_nodes(g, ids), records_of(g).nodes),
        ids.contains(id) && records_of(g).nodes.dom().contains(id.0) ==> exists|i: int|
            0 <= i < told_nodes(g, ids).len() && (#[trigger] told_nodes(g, ids)[i]).0 == id,
{
    let numbers = ids.map_values(|id: NodeId| id.0);
    let records = g.node_records.map();
    lemma_known_nodes(numbers, records, id.0);
    let known = service::known_nodes(numbers, records);
    let told = told_nodes(g, ids);
    assert forall|i: int| 0 <= i < told.len() implies records_of(g).nodes.dom().contains(
        (#[trigger] told[i]).0.0,
    ) && told[i].1 == arrived_node(records_of(g).nodes[told[i].0.0]) by {
        assert(told[i].0.0 == known[i].0);
        assert(records_of(g).nodes[known[i].0] == records[known[i].0]@);
    }
    if ids.contains(id) && records_of(g).nodes.dom().contains(id.0) {
        let j = choose|j: int| 0 <= j < ids.len() && ids[j] == id;
        assert(numbers[j] == id.0);
        let i = choose|i: int| 0 <= i < known.len() && (#[trigger] known[i]).0 == id.0;
        assert(told[i].0 == id);
    }
}

proof fn lemma_told_edges(g: IndexGeneration, ids: Seq<EdgeId>, id: EdgeId)
    ensures
        edges_true(told_edges(g, ids), records_of(g).edges),
        ids.contains(id) && records_of(g).edges.dom().contains(id.0) ==> exists|i: int|
            0 <= i < told_edges(g, ids).len() && (#[trigger] told_edges(g, ids)[i]).0 == id,
{
    let numbers = ids.map_values(|id: EdgeId| id.0);
    let records = g.edge_records.map();
    lemma_known_edges(numbers, records, id.0);
    let known = service::known_edges(numbers, records);
    let told = told_edges(g, ids);
    assert forall|i: int| 0 <= i < told.len() implies records_of(g).edges.dom().contains(
        (#[trigger] told[i]).0.0,
    ) && told[i].1 == arrived_edge(records_of(g).edges[told[i].0.0]) by {
        assert(told[i].0.0 == known[i].0);
        assert(records_of(g).edges[known[i].0] == records[known[i].0]@);
    }
    if ids.contains(id) && records_of(g).edges.dom().contains(id.0) {
        let j = choose|j: int| 0 <= j < ids.len() && ids[j] == id;
        assert(numbers[j] == id.0);
        let i = choose|i: int| 0 <= i < known.len() && (#[trigger] known[i]).0 == id.0;
        assert(told[i].0 == id);
    }
}

proof fn lemma_with_nodes(
    m: Map<u64, NodeRecordView>,
    more: Seq<(NodeId, NodeRecordView)>,
    want: Map<u64, NodeRecordView>,
)
    requires
        nodes_true(more, want),
        forall|id: u64| #[trigger]
            m.dom().contains(id) ==> want.dom().contains(id) && m[id] == arrived_node(want[id]),
    ensures
        forall|id: u64| #[trigger]
            distributed::with_nodes(m, more).dom().contains(id) ==> want.dom().contains(id)
                && distributed::with_nodes(m, more)[id] == arrived_node(want[id]),
        forall|id: u64| #[trigger]
            m.dom().contains(id) ==> distributed::with_nodes(m, more).dom().contains(id),
        forall|i: int|
            0 <= i < more.len() ==> distributed::with_nodes(m, more).dom().contains(
                (#[trigger] more[i]).0.0,
            ),
    decreases more.len(),
{
    if more.len() > 0 {
        let shorter = more.drop_last();
        assert forall|i: int| 0 <= i < shorter.len() implies want.dom().contains(
            (#[trigger] shorter[i]).0.0,
        ) && shorter[i].1 == arrived_node(want[shorter[i].0.0]) by {
            assert(shorter[i] == more[i]);
        }
        lemma_with_nodes(m, shorter, want);
        assert(more[more.len() - 1] == more.last());
        let rest = distributed::with_nodes(m, shorter);
        assert forall|id: u64| #[trigger]
            distributed::with_nodes(m, more).dom().contains(id) implies want.dom().contains(id)
            && distributed::with_nodes(m, more)[id] == arrived_node(want[id]) by {
            if id != more.last().0.0 {
                assert(rest.dom().contains(id));
            }
        }
        assert forall|i: int| 0 <= i < more.len() implies distributed::with_nodes(
            m,
            more,
        ).dom().contains((#[trigger] more[i]).0.0) by {
            if i < shorter.len() {
                assert(shorter[i] == more[i]);
            }
        }
    }
}

proof fn lemma_with_edges(
    m: Map<u64, EdgeRecordView>,
    more: Seq<(EdgeId, EdgeRecordView)>,
    want: Map<u64, EdgeRecordView>,
)
    requires
        edges_true(more, want),
        forall|id: u64| #[trigger]
            m.dom().contains(id) ==> want.dom().contains(id) && m[id] == arrived_edge(want[id]),
    ensures
        forall|id: u64| #[trigger]
            distributed::with_edges(m, more).dom().contains(id) ==> want.dom().contains(id)
                && distributed::with_edges(m, more)[id] == arrived_edge(want[id]),
        forall|id: u64| #[trigger]
            m.dom().contains(id) ==> distributed::with_edges(m, more).dom().contains(id),
        forall|i: int|
            0 <= i < more.len() ==> distributed::with_edges(m, more).dom().contains(
                (#[trigger] more[i]).0.0,
            ),
    decreases more.len(),
{
    if more.len() > 0 {
        let shorter = more.drop_last();
        assert forall|i: int| 0 <= i < shorter.len() implies want.dom().contains(
            (#[trigger] shorter[i]).0.0,
        ) && shorter[i].1 == arrived_edge(want[shorter[i].0.0]) by {
            assert(shorter[i] == more[i]);
        }
        lemma_with_edges(m, shorter, want);
        assert(more[more.len() - 1] == more.last());
        let rest = distributed::with_edges(m, shorter);
        assert forall|id: u64| #[trigger]
            distributed::with_edges(m, more).dom().contains(id) implies want.dom().contains(id)
            && distributed::with_edges(m, more)[id] == arrived_edge(want[id]) by {
            if id != more.last().0.0 {
                assert(rest.dom().contains(id));
            }
        }
        assert forall|i: int| 0 <= i < more.len() implies distributed::with_edges(
            m,
            more,
        ).dom().contains((#[trigger] more[i]).0.0) by {
            if i < shorter.len() {
                assert(shorter[i] == more[i]);
            }
        }
    }
}

proof fn lemma_gathered_nodes(
    replies: Seq<Result<Seq<(NodeId, NodeRecordView)>, ExecutionErrorView>>,
    want: Map<u64, NodeRecordView>,
)
    requires
        forall|j: int|
            0 <= j < replies.len() ==> (#[trigger] replies[j]) is Ok && nodes_true(
                replies[j]->Ok_0,
                want,
            ),
    ensures
        distributed::gathered_nodes(replies) is Ok,
        forall|id: u64| #[trigger]
            (distributed::gathered_nodes(replies)->Ok_0).dom().contains(id)
                ==> want.dom().contains(id) && (distributed::gathered_nodes(replies)->Ok_0)[id]
                == arrived_node(want[id]),
        forall|j: int, i: int|
            0 <= j < replies.len() && 0 <= i < (replies[j]->Ok_0).len() ==> (
            distributed::gathered_nodes(replies)->Ok_0).dom().contains(
                (#[trigger] (replies[j]->Ok_0)[i]).0.0,
            ),
    decreases replies.len(),
{
    if replies.len() > 0 {
        let shorter = replies.drop_last();
        assert forall|j: int| 0 <= j < shorter.len() implies (#[trigger] shorter[j]) is Ok
            && nodes_true(shorter[j]->Ok_0, want) by {
            assert(shorter[j] == replies[j]);
        }
        lemma_gathered_nodes(shorter, want);
        assert(replies[replies.len() - 1] == replies.last());
        let m = distributed::gathered_nodes(shorter)->Ok_0;
        lemma_with_nodes(m, replies.last()->Ok_0, want);
        assert forall|j: int, i: int|
            0 <= j < replies.len() && 0 <= i < (replies[j]->Ok_0).len() implies (
        distributed::gathered_nodes(replies)->Ok_0).dom().contains(
            (#[trigger] (replies[j]->Ok_0)[i]).0.0,
        ) by {
            if j < shorter.len() {
                assert(shorter[j] == replies[j]);
                assert(m.dom().contains((shorter[j]->Ok_0)[i].0.0));
            }
        }
    }
}

proof fn lemma_gathered_edges(
    replies: Seq<Result<Seq<(EdgeId, EdgeRecordView)>, ExecutionErrorView>>,
    want: Map<u64, EdgeRecordView>,
)
    requires
        forall|j: int|
            0 <= j < replies.len() ==> (#[trigger] replies[j]) is Ok && edges_true(
                replies[j]->Ok_0,
                want,
            ),
    ensures
        distributed::gathered_edges(replies) is Ok,
        forall|id: u64| #[trigger]
            (distributed::gathered_edges(replies)->Ok_0).dom().contains(id)
                ==> want.dom().contains(id) && (distributed::gathered_edges(replies)->Ok_0)[id]
                == arrived_edge(want[id]),
        forall|j: int, i: int|
            0 <= j < replies.len() && 0 <= i < (replies[j]->Ok_0).len() ==> (
            distributed::gathered_edges(replies)->Ok_0).dom().contains(
                (#[trigger] (replies[j]->Ok_0)[i]).0.0,
            ),
    decreases replies.len(),
{
    if replies.len() > 0 {
        let shorter = replies.drop_last();
        assert forall|j: int| 0 <= j < shorter.len() implies (#[trigger] shorter[j]) is Ok
            && edges_true(shorter[j]->Ok_0, want) by {
            assert(shorter[j] == replies[j]);
        }
        lemma_gathered_edges(shorter, want);
        assert(replies[replies.len() - 1] == replies.last());
        let m = distributed::gathered_edges(shorter)->Ok_0;
        lemma_with_edges(m, replies.last()->Ok_0, want);
        assert forall|j: int, i: int|
            0 <= j < replies.len() && 0 <= i < (replies[j]->Ok_0).len() implies (
        distributed::gathered_edges(replies)->Ok_0).dom().contains(
            (#[trigger] (replies[j]->Ok_0)[i]).0.0,
        ) by {
            if j < shorter.len() {
                assert(shorter[j] == replies[j]);
                assert(m.dom().contains((shorter[j]->Ok_0)[i].0.0));
            }
        }
    }
}

/// The record of a node is the same in the index of its owner as in that of
/// the undivided graph, and in no other.
proof fn lemma_node_of_owner(
    g: IndexGeneration,
    gs: Seq<IndexGeneration>,
    s: SchemaView,
    nodes: Seq<ScannedNodeView>,
    edges: Seq<ScannedEdgeView>,
    p: u32,
    id: NodeId,
)
    requires
        agreement::holds_all(g, s, nodes, edges),
        agreement::divides(gs, s, nodes, edges),
        p < gs.len(),
    ensures
        records_of(gs[p as int]).nodes.dom().contains(id.0) <==> records_of(
            g,
        ).nodes.dom().contains(id.0) && partitioning::owner(id, gs.len() as u32) == p,
        records_of(gs[p as int]).nodes.dom().contains(id.0) ==> records_of(
            gs[p as int],
        ).nodes[id.0] == records_of(g).nodes[id.0],
{
    let n = gs.len() as u32;
    assert(builder::indexes(gs[p as int], s, PartitionId(p), n, nodes, edges));
    agreement::lemma_node_record_is_divided(nodes, p, n, id.0);
    agreement::lemma_node_record_is_divided(nodes, 0, 1, id.0);
    partitioning::law_every_node_has_one_owner(id, 1);
    assert(NodeId(id.0) == id);
}

/// The record of an edge is the same in the index of the owner of its source
/// as in that of the undivided graph.
proof fn lemma_edge_of_owner(
    g: IndexGeneration,
    gs: Seq<IndexGeneration>,
    s: SchemaView,
    nodes: Seq<ScannedNodeView>,
    edges: Seq<ScannedEdgeView>,
    p: u32,
    id: EdgeId,
)
    requires
        agreement::holds_all(g, s, nodes, edges),
        agreement::divides(gs, s, nodes, edges),
        agreement::unique_edges(edges),
        p < gs.len(),
    ensures
        records_of(gs[p as int]).edges.dom().contains(id.0) ==> records_of(
            g,
        ).edges.dom().contains(id.0) && records_of(gs[p as int]).edges[id.0] == records_of(
            g,
        ).edges[id.0],
        forall|e: int|
            0 <= e < edges.len() && (#[trigger] edges[e]).row.id == id && partitioning::owner(
                edges[e].row.src,
                gs.len() as u32,
            ) == p ==> records_of(gs[p as int]).edges.dom().contains(id.0) && records_of(
                g,
            ).edges.dom().contains(id.0),
{
    let n = gs.len() as u32;
    assert(builder::indexes(gs[p as int], s, PartitionId(p), n, nodes, edges));
    laws::law_edge_records_follow_the_source(edges, PartitionId(p), n, id.0);
    if records_of(gs[p as int]).edges.dom().contains(id.0) {
        let i = choose|i: int|
            0 <= i < edges.len() && (#[trigger] edges[i]).row.id.0 == id.0 && partitioning::owner(
                edges[i].row.src,
                n,
            ) == p;
        partitioning::law_every_node_has_one_owner(edges[i].row.src, 1);
        laws::law_edge_records_hold_what_was_scanned(edges, PartitionId(p), n, i);
        laws::law_edge_records_hold_what_was_scanned(edges, PartitionId(0), 1, i);
    }
    assert forall|e: int|
        0 <= e < edges.len() && (#[trigger] edges[e]).row.id == id && partitioning::owner(
            edges[e].row.src,
            n,
        ) == p implies records_of(gs[p as int]).edges.dom().contains(id.0) && records_of(
        g,
    ).edges.dom().contains(id.0) by {
        partitioning::law_every_node_has_one_owner(edges[e].row.src, 1);
        laws::law_edge_records_hold_what_was_scanned(edges, PartitionId(p), n, e);
        laws::law_edge_records_hold_what_was_scanned(edges, PartitionId(0), 1, e);
    }
}

/// The nodes that were asked for arrive as the undivided graph has them.
proof fn lemma_nodes_arrive<R: PartitionRpc>(
    rpc: R,
    map: PartitionMap,
    g: IndexGeneration,
    gs: Seq<IndexGeneration>,
    s: SchemaView,
    nodes: Seq<ScannedNodeView>,
    edges: Seq<ScannedEdgeView>,
    ids: Seq<NodeId>,
    replies: Seq<Result<Seq<(NodeId, NodeRecordView)>, ExecutionErrorView>>,
)
    requires
        agreement::holds_all(g, s, nodes, edges),
        agreement::divides(gs, s, nodes, edges),
        all_serve(rpc, map, gs),
        distributed::asked_nodes(
            rpc,
            routing::routes_of(map, ids, routing::node_owners(ids, gs.len() as u32)),
            replies,
        ),
    ensures
        distributed::gathered_nodes(replies) is Ok,
        forall|id: u64| #[trigger]
            (distributed::gathered_nodes(replies)->Ok_0).dom().contains(id) ==> records_of(
                g,
            ).nodes.dom().contains(id) && (distributed::gathered_nodes(replies)->Ok_0)[id]
                == arrived_node(records_of(g).nodes[id]),
        forall|id: NodeId| #[trigger]
            ids.contains(id) && records_of(g).nodes.dom().contains(id.0) ==> (
            distributed::gathered_nodes(replies)->Ok_0).dom().contains(id.0),
{
    let n = gs.len() as u32;
    let want = records_of(g).nodes;
    let owners = routing::node_owners(ids, n);
    let asked = routing::distinct(owners);
    let routes = routing::routes_of(map, ids, owners);
    assert forall|i: int| 0 <= i < asked.len() implies map.choice(#[trigger] asked[i]) is Some
        && asked[i] < n by {
        assert(asked.contains(asked[i]));
        routing::lemma_distinct(owners, asked[i]);
        let j = choose|j: int| 0 <= j < owners.len() && owners[j] == asked[i];
        partitioning::law_every_node_has_one_owner(ids[j], n);
    }
    lemma_routes_healthy(map, asked, ids, owners);
    assert forall|j: int| 0 <= j < replies.len() implies (#[trigger] replies[j]) == Ok::<
        Seq<(NodeId, NodeRecordView)>,
        ExecutionErrorView,
    >(told_nodes(gs[asked[j] as int], routes[j].1)) && nodes_true(replies[j]->Ok_0, want) by {
        let p = asked[j];
        assert(routes[j].0 == map.choice(p)->Some_0);
        assert(map.choice(p) is Some);
        assert(serves(rpc, routes[j].0, gs[p as int]));
        assert(rpc.nodes_answer(routes[j].0, routes[j].1, replies[j]));
        let told = told_nodes(gs[p as int], routes[j].1);
        lemma_told_nodes(gs[p as int], routes[j].1, NodeId(0));
        assert forall|i: int| 0 <= i < told.len() implies want.dom().contains(
            (#[trigger] told[i]).0.0,
        ) && told[i].1 == arrived_node(want[told[i].0.0]) by {
            lemma_node_of_owner(g, gs, s, nodes, edges, p, told[i].0);
        }
    }
    lemma_gathered_nodes(replies, want);
    let got = distributed::gathered_nodes(replies)->Ok_0;
    assert(replies.len() == asked.len());
    assert forall|id: NodeId| #[trigger] ids.contains(id) && want.dom().contains(
        id.0,
    ) implies got.dom().contains(id.0) by {
        let k = choose|k: int| 0 <= k < ids.len() && ids[k] == id;
        let p = owners[k];
        partitioning::law_every_node_has_one_owner(id, n);
        routing::lemma_distinct(owners, p);
        assert(owners.contains(p));
        let j = choose|j: int| 0 <= j < asked.len() && asked[j] == p;
        assert(replies[j] is Ok);
        routing::lemma_members(ids, owners, p, id);
        assert(ids[k] == id && owners[k] == p);
        assert(routes[j] == (map.choice(asked[j])->Some_0, routing::members(ids, owners, p)));
        assert(routes[j].1.contains(id));
        lemma_node_of_owner(g, gs, s, nodes, edges, p, id);
        lemma_told_nodes(gs[p as int], routes[j].1, id);
        let told = told_nodes(gs[p as int], routes[j].1);
        let i = choose|i: int| 0 <= i < told.len() && (#[trigger] told[i]).0 == id;
        assert((replies[j]->Ok_0)[i].0 == id);
    }
}

/// The edges that were asked for arrive as the undivided graph has them,
/// where they were asked for with their sources.
proof fn lemma_edges_arrive<R: PartitionRpc>(
    rpc: R,
    map: PartitionMap,
    g: IndexGeneration,
    gs: Seq<IndexGeneration>,
    s: SchemaView,
    nodes: Seq<ScannedNodeView>,
    edges: Seq<ScannedEdgeView>,
    items: Seq<EdgeAt>,
    replies: Seq<Result<Seq<(EdgeId, EdgeRecordView)>, ExecutionErrorView>>,
)
    requires
        agreement::holds_all(g, s, nodes, edges),
        agreement::divides(gs, s, nodes, edges),
        agreement::unique_edges(edges),
        all_serve(rpc, map, gs),
        distributed::asked_edges(
            rpc,
            routing::routes_of(map, items, routing::edge_owners(items, gs.len() as u32)),
            replies,
        ),
    ensures
        distributed::gathered_edges(replies) is Ok,
        forall|id: u64| #[trigger]
            (distributed::gathered_edges(replies)->Ok_0).dom().contains(id) ==> records_of(
                g,
            ).edges.dom().contains(id) && (distributed::gathered_edges(replies)->Ok_0)[id]
                == arrived_edge(records_of(g).edges[id]),
        forall|x: EdgeAt, e: int|
            #![trigger items.contains(x), edges[e]]
            items.contains(x) && 0 <= e < edges.len() && edges[e].row.id == x.edge
                && edges[e].row.src == x.source ==> (distributed::gathered_edges(
                replies,
            )->Ok_0).dom().contains(x.edge.0) && records_of(g).edges.dom().contains(x.edge.0),
{
    let n = gs.len() as u32;
    let want = records_of(g).edges;
    let owners = routing::edge_owners(items, n);
    let asked = routing::distinct(owners);
    let routes = routing::routes_of(map, items, owners);
    assert forall|i: int| 0 <= i < asked.len() implies map.choice(#[trigger] asked[i]) is Some
        && asked[i] < n by {
        assert(asked.contains(asked[i]));
        routing::lemma_distinct(owners, asked[i]);
        let j = choose|j: int| 0 <= j < owners.len() && owners[j] == asked[i];
        partitioning::law_every_node_has_one_owner(items[j].source, n);
    }
    lemma_routes_healthy(map, asked, items, owners);
    assert forall|j: int| 0 <= j < replies.len() implies (#[trigger] replies[j]) == Ok::<
        Seq<(EdgeId, EdgeRecordView)>,
        ExecutionErrorView,
    >(told_edges(gs[asked[j] as int], routes[j].1.map_values(|x: EdgeAt| x.edge))) && edges_true(
        replies[j]->Ok_0,
        want,
    ) by {
        let p = asked[j];
        let ids = routes[j].1.map_values(|x: EdgeAt| x.edge);
        assert(routes[j].0 == map.choice(p)->Some_0);
        assert(map.choice(p) is Some);
        assert(serves(rpc, routes[j].0, gs[p as int]));
        assert(rpc.edges_answer(routes[j].0, ids, replies[j]));
        let told = told_edges(gs[p as int], ids);
        lemma_told_edges(gs[p as int], ids, EdgeId(0));
        assert forall|i: int| 0 <= i < told.len() implies want.dom().contains(
            (#[trigger] told[i]).0.0,
        ) && told[i].1 == arrived_edge(want[told[i].0.0]) by {
            lemma_edge_of_owner(g, gs, s, nodes, edges, p, told[i].0);
        }
    }
    lemma_gathered_edges(replies, want);
    let got = distributed::gathered_edges(replies)->Ok_0;
    assert(replies.len() == asked.len());
    assert forall|x: EdgeAt, e: int|
        #![trigger items.contains(x), edges[e]]
        items.contains(x) && 0 <= e < edges.len() && edges[e].row.id == x.edge && edges[e].row.src
            == x.source implies got.dom().contains(x.edge.0) && want.dom().contains(x.edge.0) by {
        let k = choose|k: int| 0 <= k < items.len() && items[k] == x;
        let p = owners[k];
        partitioning::law_every_node_has_one_owner(x.source, n);
        routing::lemma_distinct(owners, p);
        assert(owners.contains(p));
        let j = choose|j: int| 0 <= j < asked.len() && asked[j] == p;
        assert(replies[j] is Ok);
        routing::lemma_members(items, owners, p, x);
        assert(items[k] == x && owners[k] == p);
        assert(routes[j] == (map.choice(asked[j])->Some_0, routing::members(items, owners, p)));
        assert(routes[j].1.contains(x));
        let ids = routes[j].1.map_values(|x: EdgeAt| x.edge);
        let y = choose|y: int| 0 <= y < routes[j].1.len() && routes[j].1[y] == x;
        assert(ids[y] == x.edge);
        assert(ids.contains(x.edge));
        lemma_edge_of_owner(g, gs, s, nodes, edges, p, x.edge);
        lemma_told_edges(gs[p as int], ids, x.edge);
        let told = told_edges(gs[p as int], ids);
        let i = choose|i: int| 0 <= i < told.len() && (#[trigger] told[i]).0 == x.edge;
        assert((replies[j]->Ok_0)[i].0 == x.edge);
    }
}

proof fn lemma_nodes_bound(b: BindingView, aliases: Seq<Seq<char>>, a: int)
    requires
        0 <= a < aliases.len(),
        b.nodes.dom().contains(aliases[a]),
    ensures
        hydration::nodes_bound(b, aliases).contains(b.nodes[aliases[a]]),
    decreases aliases.len(),
{
    let shorter = aliases.drop_last();
    let rest = hydration::nodes_bound(b, shorter);
    let id = b.nodes[aliases[a]];
    laws::lemma_contains_push(rest, b.nodes[aliases.last()], id);
    if a < shorter.len() {
        assert(shorter[a] == aliases[a]);
        lemma_nodes_bound(b, shorter, a);
    }
}

proof fn lemma_nodes_needed(rows: Seq<BindingView>, aliases: Seq<Seq<char>>, r: int, a: int)
    requires
        0 <= r < rows.len(),
        0 <= a < aliases.len(),
        rows[r].nodes.dom().contains(aliases[a]),
    ensures
        hydration::nodes_needed(rows, aliases).contains(rows[r].nodes[aliases[a]]),
    decreases rows.len(),
{
    let shorter = rows.drop_last();
    let id = rows[r].nodes[aliases[a]];
    walk::lemma_union_new(
        hydration::nodes_needed(shorter, aliases),
        hydration::nodes_bound(rows.last(), aliases),
        id,
    );
    if r < shorter.len() {
        assert(shorter[r] == rows[r]);
        lemma_nodes_needed(shorter, aliases, r, a);
    } else {
        lemma_nodes_bound(rows.last(), aliases, a);
    }
}

proof fn lemma_edges_bound(
    b: BindingView,
    aliases: Seq<Seq<char>>,
    steps: Seq<PlanStepView>,
    a: int,
    source: Seq<char>,
)
    requires
        0 <= a < aliases.len(),
        hydration::edge_source(steps, aliases[a]) == Some(source),
        !b.nodes.dom().contains(aliases[a]),
        b.edges.dom().contains(aliases[a]),
        b.nodes.dom().contains(source),
    ensures
        hydration::edges_bound(b, aliases, steps).contains(
            EdgeAt { edge: b.edges[aliases[a]], source: b.nodes[source] },
        ),
    decreases aliases.len(),
{
    let shorter = aliases.drop_last();
    let rest = hydration::edges_bound(b, shorter, steps);
    let all = hydration::edges_bound(b, aliases, steps);
    let x = EdgeAt { edge: b.edges[aliases[a]], source: b.nodes[source] };
    if a < shorter.len() {
        assert(shorter[a] == aliases[a]);
        lemma_edges_bound(b, shorter, steps, a, source);
        let i = choose|i: int| 0 <= i < rest.len() && rest[i] == x;
        assert(all[i] == x);
    } else {
        assert(all[rest.len() as int] == x);
    }
}

proof fn lemma_edges_needed(
    rows: Seq<BindingView>,
    aliases: Seq<Seq<char>>,
    steps: Seq<PlanStepView>,
    r: int,
    a: int,
    source: Seq<char>,
)
    requires
        0 <= r < rows.len(),
        0 <= a < aliases.len(),
        hydration::edge_source(steps, aliases[a]) == Some(source),
        !rows[r].nodes.dom().contains(aliases[a]),
        rows[r].edges.dom().contains(aliases[a]),
        rows[r].nodes.dom().contains(source),
    ensures
        hydration::edges_needed(rows, aliases, steps).contains(
            EdgeAt { edge: rows[r].edges[aliases[a]], source: rows[r].nodes[source] },
        ),
    decreases rows.len(),
{
    let shorter = rows.drop_last();
    let x = EdgeAt { edge: rows[r].edges[aliases[a]], source: rows[r].nodes[source] };
    laws::lemma_contains_add(
        hydration::edges_needed(shorter, aliases, steps),
        hydration::edges_bound(rows.last(), aliases, steps),
        x,
    );
    if r < shorter.len() {
        assert(shorter[r] == rows[r]);
        lemma_edges_needed(shorter, aliases, steps, r, a, source);
    } else {
        lemma_edges_bound(rows.last(), aliases, steps, a, source);
    }
}

/// That the records of what a row binds an alias to are the same in two
/// collections, but for the way over the wire.
pub open spec fn agree(b: BindingView, alias: Seq<char>, sent: RecordsView, whole: RecordsView) -> bool {
    match (
        hydration::properties_of(b, alias, sent),
        hydration::properties_of(b, alias, whole),
    ) {
        (Some(x), Some(y)) => x == arrived(y),
        (None, None) => true,
        _ => false,
    }
}

/// What is fetched for sound rows is what the undivided graph has.
pub proof fn lemma_records_agree<R: PartitionRpc>(
    rpc: R,
    map: PartitionMap,
    g: IndexGeneration,
    gs: Seq<IndexGeneration>,
    s: SchemaView,
    nodes: Seq<ScannedNodeView>,
    edges: Seq<ScannedEdgeView>,
    steps: Seq<PlanStepView>,
    k: nat,
    rows: Seq<BindingView>,
    aliases: Seq<Seq<char>>,
    fetched: Fetched,
)
    requires
        agreement::holds_all(g, s, nodes, edges),
        agreement::divides(gs, s, nodes, edges),
        agreement::unique_edges(edges),
        all_serve(rpc, map, gs),
        edges_named_once(steps),
        forall|i: int| 0 <= i < rows.len() ==> sound(steps, edges, k, #[trigger] rows[i]),
        distributed::asked_records(
            rpc,
            map,
            gs.len() as u32,
            rows,
            aliases,
            steps,
            fetched,
        ),
    ensures
        distributed::gathered_records(fetched) is Ok,
        forall|i: int, a: int|
            0 <= i < rows.len() && 0 <= a < aliases.len() ==> agree(
                #[trigger] rows[i],
                #[trigger] aliases[a],
                distributed::gathered_records(fetched)->Ok_0,
                records_of(g),
            ),
{
    let ids = hydration::nodes_needed(rows, aliases);
    let items = hydration::edges_needed(rows, aliases, steps);
    lemma_nodes_arrive(rpc, map, g, gs, s, nodes, edges, ids, fetched.nodes);
    lemma_edges_arrive(rpc, map, g, gs, s, nodes, edges, items, fetched.edges);
    let got = distributed::gathered_records(fetched)->Ok_0;
    let whole = records_of(g);
    assert forall|i: int, a: int| 0 <= i < rows.len() && 0 <= a < aliases.len() implies agree(
        #[trigger] rows[i],
        #[trigger] aliases[a],
        got,
        whole,
    ) by {
        let b = rows[i];
        let alias = aliases[a];
        if b.nodes.dom().contains(alias) {
            lemma_nodes_needed(rows, aliases, i, a);
            let id = b.nodes[alias];
            assert(ids.contains(id));
            assert(got.nodes.dom().contains(id.0) <==> whole.nodes.dom().contains(id.0));
        } else if b.edges.dom().contains(alias) {
            let (j, e) = choose|j: int, e: int|
                j <= k && #[trigger] edge_kept(steps, edges, b, alias, j, e);
            lemma_edge_source(steps, alias, j);
            let source = source_alias(steps[j]->ExpandHop_0);
            lemma_edges_needed(rows, aliases, steps, i, a, source);
            let x = EdgeAt { edge: b.edges[alias], source: b.nodes[source] };
            assert(items.contains(x));
            assert(edges[e].row.id == x.edge && edges[e].row.src == x.source);
            assert(got.edges.dom().contains(x.edge.0));
        }
    }
}

/// The way over the wire makes no difference to a filter.
proof fn lemma_arrived_passes(
    properties: Map<Seq<char>, PropertyValueView>,
    f: PropertyFilterView,
)
    ensures
        filter_eval::passes(arrived(properties), f) == filter_eval::passes(properties, f),
{
    wire::law_records_arrive_but_for_lists_and_nulls(properties);
}

proof fn lemma_conditions_agree(
    b: BindingView,
    conditions: Seq<(Seq<char>, PropertyFilterView)>,
    sent: RecordsView,
    whole: RecordsView,
)
    requires
        forall|a: int|
            0 <= a < conditions.len() ==> agree(b, (#[trigger] conditions[a]).0, sent, whole),
    ensures
        hydration::meets_all(b, conditions, sent) == hydration::meets_all(b, conditions, whole),
{
    assert forall|a: int| 0 <= a < conditions.len() implies hydration::meets_condition(
        b,
        #[trigger] conditions[a],
        sent,
    ) == hydration::meets_condition(b, conditions[a], whole) by {
        if let Some(y) = hydration::properties_of(b, conditions[a].0, whole) {
            lemma_arrived_passes(y, conditions[a].1);
        }
    }
}

proof fn lemma_resolved_agrees(
    b: BindingView,
    conditions: Seq<(Seq<char>, ComparisonOp, PropertyRefView)>,
    sent: RecordsView,
    whole: RecordsView,
)
    requires
        forall|a: int|
            0 <= a < conditions.len() ==> agree(
                b,
                (#[trigger] conditions[a]).2.alias,
                sent,
                whole,
            ),
    ensures
        hydration::resolved_outer(b, conditions, sent) == hydration::resolved_outer(
            b,
            conditions,
            whole,
        ),
        hydration::resolved_outer(b, conditions, sent) matches Some(filters) ==> filters.len()
            == conditions.len() && grpc_partition_rpc::doubles_known(filters),
    decreases conditions.len(),
{
    if conditions.len() > 0 {
        let shorter = conditions.drop_last();
        assert forall|a: int| 0 <= a < shorter.len() implies agree(
            b,
            (#[trigger] shorter[a]).2.alias,
            sent,
            whole,
        ) by {
            assert(shorter[a] == conditions[a]);
        }
        lemma_resolved_agrees(b, shorter, sent, whole);
        let r = conditions[conditions.len() - 1].2;
        assert(agree(b, conditions[conditions.len() - 1].2.alias, sent, whole));
        if let Some(y) = hydration::properties_of(b, r.alias, whole) {
            wire::law_records_arrive_but_for_lists_and_nulls(y);
        }
        assert(hydration::referred(b, r, sent) == hydration::referred(b, r, whole));
    }
}

/// Rows that are filtered by what was fetched are those that the undivided
/// graph would keep.
proof fn lemma_filter_agrees<R: PartitionRpc>(
    rpc: R,
    map: PartitionMap,
    g: IndexGeneration,
    gs: Seq<IndexGeneration>,
    s: SchemaView,
    nodes: Seq<ScannedNodeView>,
    edges: Seq<ScannedEdgeView>,
    steps: Seq<PlanStepView>,
    k: nat,
    rows: Seq<BindingView>,
    whole: Seq<BindingView>,
    conditions: Seq<(Seq<char>, PropertyFilterView)>,
    fetched: Fetched,
)
    requires
        agreement::holds_all(g, s, nodes, edges),
        agreement::divides(gs, s, nodes, edges),
        agreement::unique_edges(edges),
        all_serve(rpc, map, gs),
        edges_named_once(steps),
        same_rows(rows, whole),
        forall|i: int| 0 <= i < rows.len() ==> sound(steps, edges, k, #[trigger] rows[i]),
        distributed::asked_filter(
            rpc,
            map,
            gs.len() as u32,
            rows,
            conditions,
            steps,
            fetched,
        ),
    ensures
        distributed::filter_outcome(rows, conditions, fetched) is Ok,
        same_rows(
            distributed::filter_outcome(rows, conditions, fetched)->Ok_0,
            hydration::keep_meeting(whole, conditions, records_of(g)),
        ),
{
    let there = hydration::keep_meeting(whole, conditions, records_of(g));
    if conditions.len() == 0 || rows.len() == 0 {
        assert forall|row: BindingView| #[trigger] rows.contains(row) <==> there.contains(row) by {
            lemma_keep_meeting(whole, conditions, records_of(g), row);
        }
    } else {
        let aliases = hydration::condition_aliases(conditions);
        lemma_records_agree(
            rpc,
            map,
            g,
            gs,
            s,
            nodes,
            edges,
            steps,
            k,
            rows,
            aliases,
            fetched,
        );
        let sent = distributed::gathered_records(fetched)->Ok_0;
        let out = distributed::filter_outcome(rows, conditions, fetched)->Ok_0;
        assert forall|row: BindingView| #[trigger] out.contains(row) <==> there.contains(row) by {
            lemma_keep_meeting(rows, conditions, sent, row);
            lemma_keep_meeting(whole, conditions, records_of(g), row);
            assert(rows.contains(row) <==> whole.contains(row));
            if rows.contains(row) {
                let i = choose|i: int| 0 <= i < rows.len() && rows[i] == row;
                assert forall|a: int| 0 <= a < conditions.len() implies agree(
                    row,
                    (#[trigger] conditions[a]).0,
                    sent,
                    records_of(g),
                ) by {
                    assert(agree(rows[i], aliases[a], sent, records_of(g)));
                }
                lemma_conditions_agree(row, conditions, sent, records_of(g));
            }
        }
    }
}

proof fn lemma_survivors(
    g: IndexGeneration,
    step: AntiJoinStepView,
    conditions: Seq<PropertyFilterView>,
    rows: Seq<BindingView>,
    row: BindingView,
)
    ensures
        local_executor::survivors(g, step, conditions, rows).contains(row) <==> rows.contains(row)
            && !local_executor::has_forbidden(g, step, conditions, row),
    decreases rows.len(),
{
    if rows.len() > 0 {
        let shorter = rows.drop_last();
        lemma_survivors(g, step, conditions, shorter, row);
        assert(rows =~= shorter.push(rows.last()));
        laws::lemma_contains_push(shorter, rows.last(), row);
        laws::lemma_contains_push(
            local_executor::survivors(g, step, conditions, shorter),
            rows.last(),
            row,
        );
    }
}

proof fn lemma_none_unbound(rows: Seq<BindingView>, step: AntiJoinStepView)
    requires
        local_executor::all_bind(rows, step.from_alias),
        local_executor::all_bind(rows, step.to_alias),
    ensures
        local_executor::first_unbound(rows, step) is None,
    decreases rows.len(),
{
    if rows.len() > 0 {
        let rest = rows.drop_first();
        assert forall|i: int| 0 <= i < rest.len() implies (#[trigger] rest[i]).nodes.dom().contains(
            step.from_alias,
        ) && rest[i].nodes.dom().contains(step.to_alias) by {
            assert(rest[i] == rows[i + 1]);
        }
        assert(rows[0].nodes.dom().contains(step.from_alias));
        lemma_none_unbound(rest, step);
    }
}

/// That a call of a `NOT EXISTS` is the one for the class at `c`.
pub open spec fn call_for(
    map: PartitionMap,
    classes: Seq<Option<(u32, Seq<PropertyFilterView>)>>,
    rows: Seq<BindingView>,
    keys: Seq<Option<(u32, Seq<PropertyFilterView>)>>,
    c: int,
    call: (ReplicaEndpointView, Seq<PropertyFilterView>, Seq<BindingView>),
) -> bool {
    &&& 0 <= c < classes.len()
    &&& classes[c] matches Some((p, conditions))
    &&& call.0 == map.choice(p)->Some_0
    &&& call.1 == conditions
    &&& call.2 == routing::members(rows, keys, classes[c])
}

/// That every class has a partition with a healthy replica.
spec fn reachable(
    map: PartitionMap,
    classes: Seq<Option<(u32, Seq<PropertyFilterView>)>>,
) -> bool {
    forall|c: int|
        0 <= c < classes.len() ==> ((#[trigger] classes[c]) matches Some((p, _)) ==> map.choice(
            p,
        ) is Some)
}

/// A call of a `NOT EXISTS` is for one class of rows.
proof fn lemma_call_has_class(
    map: PartitionMap,
    classes: Seq<Option<(u32, Seq<PropertyFilterView>)>>,
    rows: Seq<BindingView>,
    keys: Seq<Option<(u32, Seq<PropertyFilterView>)>>,
    j: int,
) -> (c: int)
    requires
        reachable(map, classes),
        0 <= j < distributed::anti_routes(map, classes, rows, keys).len(),
    ensures
        call_for(
            map,
            classes,
            rows,
            keys,
            c,
            distributed::anti_routes(map, classes, rows, keys)[j],
        ),
    decreases classes.len(),
{
    let shorter = classes.drop_last();
    assert forall|c: int| 0 <= c < shorter.len() implies ((
    #[trigger] shorter[c]) matches Some((p, _)) ==> map.choice(p) is Some) by {
        assert(shorter[c] == classes[c]);
    }
    let rest = distributed::anti_routes(map, shorter, rows, keys);
    let last = classes.len() - 1;
    assert(classes[last] == classes.last());
    if j < rest.len() {
        let c = lemma_call_has_class(map, shorter, rows, keys, j);
        assert(classes[c] == shorter[c]);
        c
    } else {
        last
    }
}

/// A class of rows that has conditions has a call.
proof fn lemma_class_has_call(
    map: PartitionMap,
    classes: Seq<Option<(u32, Seq<PropertyFilterView>)>>,
    rows: Seq<BindingView>,
    keys: Seq<Option<(u32, Seq<PropertyFilterView>)>>,
    c: int,
) -> (j: int)
    requires
        reachable(map, classes),
        0 <= c < classes.len(),
        classes[c] is Some,
    ensures
        0 <= j < distributed::anti_routes(map, classes, rows, keys).len(),
        call_for(
            map,
            classes,
            rows,
            keys,
            c,
            distributed::anti_routes(map, classes, rows, keys)[j],
        ),
    decreases classes.len(),
{
    let shorter = classes.drop_last();
    assert forall|c: int| 0 <= c < shorter.len() implies ((
    #[trigger] shorter[c]) matches Some((p, _)) ==> map.choice(p) is Some) by {
        assert(shorter[c] == classes[c]);
    }
    let rest = distributed::anti_routes(map, shorter, rows, keys);
    let all = distributed::anti_routes(map, classes, rows, keys);
    if c < shorter.len() {
        assert(shorter[c] == classes[c]);
        let j = lemma_class_has_call(map, shorter, rows, keys, c);
        assert(all[j] == rest[j]);
        j
    } else {
        assert(classes[c] == classes.last());
        rest.len() as int
    }
}

/// The conditions of a `NOT EXISTS` for a row are the same by what was
/// fetched as by what the undivided graph has, and can be sent.
proof fn lemma_row_conditions(
    step: AntiJoinStepView,
    b: BindingView,
    sent: RecordsView,
    whole: RecordsView,
)
    requires
        grpc_partition_rpc::doubles_known(step.literal_conditions),
        forall|a: int|
            0 <= a < step.outer_conditions.len() ==> agree(
                b,
                #[trigger] hydration::outer_aliases(step.outer_conditions)[a],
                sent,
                whole,
            ),
    ensures
        hydration::resolved_conditions(b, step, sent) == hydration::resolved_conditions(
            b,
            step,
            whole,
        ),
        hydration::resolved_conditions(b, step, sent) matches Some(filters) ==> filters.len()
            == step.literal_conditions.len() + step.outer_conditions.len()
            && grpc_partition_rpc::doubles_known(filters),
{
    let outer = step.outer_conditions;
    assert forall|a: int| 0 <= a < outer.len() implies agree(
        b,
        (#[trigger] outer[a]).2.alias,
        sent,
        whole,
    ) by {
        assert(hydration::outer_aliases(outer)[a] == outer[a].2.alias);
    }
    lemma_resolved_agrees(b, outer, sent, whole);
    if let Some(more) = hydration::resolved_outer(b, outer, sent) {
        let filters = step.literal_conditions + more;
        assert forall|i: int| 0 <= i < filters.len() implies !((
        #[trigger] filters[i]).value is FloatText) by {
            if i < step.literal_conditions.len() {
                assert(filters[i] == step.literal_conditions[i]);
            } else {
                assert(filters[i] == more[i - step.literal_conditions.len()]);
            }
        }
    }
}

/// The rows that a `NOT EXISTS` leaves: where the rows before it agree, so do
/// these.
#[verifier::rlimit(60)]
proof fn lemma_anti_agrees<R: PartitionRpc>(
    rpc: R,
    map: PartitionMap,
    g: IndexGeneration,
    gs: Seq<IndexGeneration>,
    s: SchemaView,
    nodes: Seq<ScannedNodeView>,
    edges: Seq<ScannedEdgeView>,
    steps: Seq<PlanStepView>,
    k: nat,
    step: AntiJoinStepView,
    rows: Seq<BindingView>,
    whole: Seq<BindingView>,
    fetched: Fetched,
    replies: Seq<Result<Seq<BindingView>, ExecutionErrorView>>,
)
    requires
        agreement::holds_all(g, s, nodes, edges),
        agreement::divides(gs, s, nodes, edges),
        agreement::no_dangling(nodes, edges),
        agreement::unique_edges(edges),
        all_serve(rpc, map, gs),
        1 <= k < steps.len(),
        edges_named_once(steps),
        steps[k as int] == PlanStepView::AntiJoin(step),
        follows(steps, k),
        same_rows(rows, whole),
        forall|i: int|
            0 <= i < rows.len() ==> sound(steps, edges, (k - 1) as nat, #[trigger] rows[i]),
        distributed::asked_anti(
            rpc,
            map,
            gs.len() as u32,
            step,
            rows,
            steps,
            fetched,
            replies,
        ),
    ensures
        distributed::anti_outcome(map, gs.len() as u32, step, rows, fetched, replies) is Ok,
        same_rows(
            distributed::anti_outcome(
                map,
                gs.len() as u32,
                step,
                rows,
                fetched,
                replies,
            )->Ok_0,
            left_by(g, step, whole),
        ),
{
    let n = gs.len() as u32;
    let aliases = hydration::outer_aliases(step.outer_conditions);
    lemma_records_agree(
        rpc,
        map,
        g,
        gs,
        s,
        nodes,
        edges,
        steps,
        (k - 1) as nat,
        rows,
        aliases,
        fetched,
    );
    let sent = distributed::gathered_records(fetched)->Ok_0;
    assert(local_executor::all_bind(rows, step.from_alias)) by {
        assert forall|i: int| 0 <= i < rows.len() implies (#[trigger] rows[i]).nodes.dom().contains(
            step.from_alias,
        ) by {
            assert(sound(steps, edges, (k - 1) as nat, rows[i]));
        }
    }
    assert(local_executor::all_bind(rows, step.to_alias)) by {
        assert forall|i: int| 0 <= i < rows.len() implies (#[trigger] rows[i]).nodes.dom().contains(
            step.to_alias,
        ) by {
            assert(sound(steps, edges, (k - 1) as nat, rows[i]));
        }
    }
    let keys = distributed::anti_keys(rows, step, n, sent);
    let classes = routing::distinct(keys);
    let routes = distributed::anti_routes(map, classes, rows, keys);
    assert forall|i: int| 0 <= i < rows.len() implies hydration::resolved_conditions(
        #[trigger] rows[i],
        step,
        sent,
    ) == hydration::resolved_conditions(rows[i], step, records_of(g)) && (
    hydration::resolved_conditions(rows[i], step, sent) matches Some(filters) ==> filters.len()
        == step.literal_conditions.len() + step.outer_conditions.len()
        && grpc_partition_rpc::doubles_known(filters)) by {
        assert forall|a: int| 0 <= a < step.outer_conditions.len() implies agree(
            rows[i],
            #[trigger] aliases[a],
            sent,
            records_of(g),
        ) by {}
        lemma_row_conditions(step, rows[i], sent, records_of(g));
    }
    assert forall|c: int| 0 <= c < classes.len() implies ((
    #[trigger] classes[c]) matches Some((p, conditions)) ==> p < n && map.choice(p) is Some
        && grpc_partition_rpc::doubles_known(conditions)) by {
        if let Some((p, conditions)) = classes[c] {
            assert(classes.contains(classes[c]));
            routing::lemma_distinct(keys, classes[c]);
            let i = choose|i: int| 0 <= i < keys.len() && keys[i] == classes[c];
            assert(keys[i] == distributed::anti_key(rows[i], step, n, sent));
            partitioning::law_every_node_has_one_owner(rows[i].nodes[step.from_alias], n);
        }
    }
    assert(reachable(map, classes));
    assert(distributed::asked_checks(rpc, step, routes, replies));
    assert forall|j: int| 0 <= j < replies.len() implies (#[trigger] replies[j]) is Ok && exists|
        c: int,
    | #[trigger]
        call_for(map, classes, rows, keys, c, routes[j]) && (replies[j]->Ok_0)
            == local_executor::survivors(
            gs[(classes[c]->Some_0).0 as int],
            step,
            (classes[c]->Some_0).1,
            routing::members(rows, keys, classes[c]),
        ) by {
        let c = lemma_call_has_class(map, classes, rows, keys, j);
        assert(rpc.check_answer(routes[j].0, step, routes[j].1, routes[j].2, replies[j]));
        assert(classes[c] is Some);
        lemma_reply_of_class(
            rpc,
            map,
            gs,
            step,
            rows,
            keys,
            classes,
            c,
            routes[j],
            replies[j],
        );
    }
    assert forall|j: int| 0 <= j < replies.len() implies (#[trigger] replies[j]) is Ok by {}
    agreement::lemma_gathered(replies, BindingView::of_node(seq![], NodeId(0)));
    assert(replies.len() == routes.len());
    let left = distributed::gathered(replies)->Ok_0;
    let none: Option<(u32, Seq<PropertyFilterView>)> = None;
    let kept = routing::members(rows, keys, none);
    let out = distributed::anti_outcome(map, n, step, rows, fetched, replies)->Ok_0;
    let there = left_by(g, step, whole);
    assert(out == kept + left);
    assert forall|row: BindingView| #[trigger] out.contains(row) <==> there.contains(row) by {
        lemma_left_by(g, step, whole, row);
        laws::lemma_contains_add(kept, left, row);
        agreement::lemma_gathered(replies, row);
        routing::lemma_members(rows, keys, none, row);
        assert(rows.contains(row) <==> whole.contains(row));
        if left.contains(row) {
            let j = choose|j: int|
                0 <= j < replies.len() && ((#[trigger] replies[j])->Ok_0).contains(row);
            let c = choose|c: int| #[trigger]
                call_for(map, classes, rows, keys, c, routes[j]) && (replies[j]->Ok_0)
                    == local_executor::survivors(
                    gs[(classes[c]->Some_0).0 as int],
                    step,
                    (classes[c]->Some_0).1,
                    routing::members(rows, keys, classes[c]),
                );
            let (p, conditions) = classes[c]->Some_0;
            let group = routing::members(rows, keys, classes[c]);
            lemma_survivors(gs[p as int], step, conditions, group, row);
            routing::lemma_members(rows, keys, classes[c], row);
            let i = choose|i: int|
                0 <= i < rows.len() && #[trigger] rows[i] == row && keys[i] == classes[c];
            assert(rows.contains(row));
            assert(keys[i] == distributed::anti_key(rows[i], step, n, sent));
            agreement::law_not_exists_is_the_same_divided_or_not(
                g,
                gs,
                s,
                nodes,
                edges,
                step,
                conditions,
                row,
            );
            assert(!excluded(g, step, row));
        }
        if kept.contains(row) {
            let i = choose|i: int|
                0 <= i < rows.len() && #[trigger] rows[i] == row && keys[i] == none;
            assert(rows.contains(row));
            assert(keys[i] == distributed::anti_key(rows[i], step, n, sent));
            assert(!excluded(g, step, row));
        }
        if rows.contains(row) && !excluded(g, step, row) {
            let i = choose|i: int| 0 <= i < rows.len() && rows[i] == row;
            assert(keys[i] == distributed::anti_key(rows[i], step, n, sent));
            if keys[i] is Some {
                let (p, conditions) = keys[i]->Some_0;
                routing::lemma_distinct(keys, keys[i]);
                assert(keys.contains(keys[i]));
                let c = choose|c: int| 0 <= c < classes.len() && classes[c] == keys[i];
                let j = lemma_class_has_call(map, classes, rows, keys, c);
                assert(replies[j] is Ok);
                assert(rpc.check_answer(
                    routes[j].0,
                    step,
                    routes[j].1,
                    routes[j].2,
                    replies[j],
                ));
                lemma_reply_of_class(
                    rpc,
                    map,
                    gs,
                    step,
                    rows,
                    keys,
                    classes,
                    c,
                    routes[j],
                    replies[j],
                );
                routing::lemma_members(rows, keys, classes[c], row);
                assert(rows[i] == row && keys[i] == classes[c]);
                let group = routing::members(rows, keys, classes[c]);
                lemma_survivors(gs[p as int], step, conditions, group, row);
                agreement::law_not_exists_is_the_same_divided_or_not(
                    g,
                    gs,
                    s,
                    nodes,
                    edges,
                    step,
                    conditions,
                    row,
                );
                assert((replies[j]->Ok_0).contains(row));
                assert(left.contains(row));
            } else {
                assert(rows[i] == row && keys[i] == none);
                assert(kept.contains(row));
            }
        }
    }
}

proof fn lemma_group_binds(
    rows: Seq<BindingView>,
    keys: Seq<Option<(u32, Seq<PropertyFilterView>)>>,
    class: Option<(u32, Seq<PropertyFilterView>)>,
    alias: Seq<char>,
)
    requires
        rows.len() == keys.len(),
        local_executor::all_bind(rows, alias),
    ensures
        local_executor::all_bind(routing::members(rows, keys, class), alias),
{
    let group = routing::members(rows, keys, class);
    assert forall|i: int| 0 <= i < group.len() implies (#[trigger] group[i]).nodes.dom().contains(
        alias,
    ) by {
        assert(group.contains(group[i]));
        routing::lemma_members(rows, keys, class, group[i]);
        let k = choose|k: int|
            0 <= k < rows.len() && #[trigger] rows[k] == group[i] && keys[k] == class;
        assert(rows[k].nodes.dom().contains(alias));
    }
}

/// The answer to the call for a class.
proof fn lemma_reply_of_class<R: PartitionRpc>(
    rpc: R,
    map: PartitionMap,
    gs: Seq<IndexGeneration>,
    step: AntiJoinStepView,
    rows: Seq<BindingView>,
    keys: Seq<Option<(u32, Seq<PropertyFilterView>)>>,
    classes: Seq<Option<(u32, Seq<PropertyFilterView>)>>,
    c: int,
    call: (ReplicaEndpointView, Seq<PropertyFilterView>, Seq<BindingView>),
    reply: Result<Seq<BindingView>, ExecutionErrorView>,
)
    requires
        all_serve(rpc, map, gs),
        rows.len() == keys.len(),
        local_executor::all_bind(rows, step.from_alias),
        local_executor::all_bind(rows, step.to_alias),
        grpc_partition_rpc::not_empty(step.edge_type),
        call_for(map, classes, rows, keys, c, call),
        (classes[c]->Some_0).0 < gs.len(),
        grpc_partition_rpc::doubles_known((classes[c]->Some_0).1),
        rpc.check_answer(call.0, step, call.1, call.2, reply),
    ensures
        reply == Ok::<Seq<BindingView>, ExecutionErrorView>(
            local_executor::survivors(
                gs[(classes[c]->Some_0).0 as int],
                step,
                (classes[c]->Some_0).1,
                routing::members(rows, keys, classes[c]),
            ),
        ),
{
    let (p, conditions) = classes[c]->Some_0;
    let group = routing::members(rows, keys, classes[c]);
    assert(map.choice(p) is Some);
    assert(serves(rpc, call.0, gs[p as int]));
    lemma_group_binds(rows, keys, classes[c], step.from_alias);
    lemma_group_binds(rows, keys, classes[c], step.to_alias);
    lemma_none_unbound(group, step);
    assert(reply == local_executor::checked(gs[p as int], step, conditions, group));
}

/// After every step the rows are those of the undivided graph.
proof fn lemma_steps_agree<R: PartitionRpc>(
    rpc: R,
    map: PartitionMap,
    g: IndexGeneration,
    gs: Seq<IndexGeneration>,
    s: SchemaView,
    nodes: Seq<ScannedNodeView>,
    edges: Seq<ScannedEdgeView>,
    plan: QueryPlanView,
    run: PlanRun,
    k: nat,
)
    requires
        agreement::holds_all(g, s, nodes, edges),
        agreement::divides(gs, s, nodes, edges),
        agreement::no_dangling(nodes, edges),
        agreement::unique_edges(edges),
        all_serve(rpc, map, gs),
        chained(plan.steps),
        k < plan.steps.len(),
        distributed::asked_plan(rpc, map, gs.len() as u32, plan, run),
    ensures
        distributed::rows_after(map, gs.len() as u32, plan, run, k) is Ok,
        same_rows(
            distributed::rows_after(map, gs.len() as u32, plan, run, k)->Ok_0,
            rows_on(g, plan.steps, k),
        ),
    decreases k,
{
    let n = gs.len() as u32;
    let steps = plan.steps;
    if k == 0 {
        lemma_start_agrees(rpc, map, g, gs, s, nodes, edges, steps, run.start);
        let rows = distributed::rows_after(map, n, plan, run, 0)->Ok_0;
        assert forall|row: BindingView| #[trigger] rows.contains(row) <==> rows_on(
            g,
            steps,
            0,
        ).contains(row) by {}
    } else {
        let m = (k - 1) as nat;
        lemma_steps_agree(rpc, map, g, gs, s, nodes, edges, plan, run, m);
        let rows = distributed::rows_after(map, n, plan, run, m)->Ok_0;
        let whole = rows_on(g, steps, m);
        let step_run = run.steps[k - 1];
        assert(distributed::asked_kth_step(rpc, map, n, plan, run, k));
        assert(follows(steps, k));
        assert forall|i: int| 0 <= i < rows.len() implies sound(
            steps,
            edges,
            m,
            #[trigger] rows[i],
        ) by {
            assert(rows.contains(rows[i]));
            lemma_rows_are_sound(g, s, nodes, edges, steps, m, rows[i]);
        }
        match steps[k as int] {
            PlanStepView::ExpandHop(hop) => {
                assert(local_executor::all_bind(rows, hop.from_alias)) by {
                    assert forall|i: int| 0 <= i < rows.len() implies (
                    #[trigger] rows[i]).nodes.dom().contains(hop.from_alias) by {
                        assert(sound(steps, edges, m, rows[i]));
                    }
                }
                lemma_hop_agrees(
                    rpc,
                    map,
                    g,
                    gs,
                    s,
                    nodes,
                    edges,
                    hop,
                    rows,
                    whole,
                    step_run.rounds,
                );
                let reached = distributed::hop_outcome(map, n, hop, rows, step_run.rounds)->Ok_0;
                let there = local_executor::expand_rows(g.topology, hop, whole).local;
                assert forall|i: int| 0 <= i < reached.len() implies sound(
                    steps,
                    edges,
                    k,
                    #[trigger] reached[i],
                ) by {
                    let row = reached[i];
                    assert(reached.contains(row));
                    assert(there.contains(row));
                    agreement::lemma_expand_rows(g.topology, hop, whole, row);
                    let j = choose|j: int|
                        0 <= j < whole.len() && local_executor::expand_row(
                            g.topology,
                            hop,
                            #[trigger] whole[j],
                        ).local.contains(row);
                    assert(whole.contains(whole[j]));
                    lemma_rows_are_sound(g, s, nodes, edges, steps, m, whole[j]);
                    lemma_whole_hop(g, s, nodes, edges, hop, whole[j], row);
                    lemma_sound_hop(steps, edges, k, hop, whole[j], row);
                }
                lemma_filter_agrees(
                    rpc,
                    map,
                    g,
                    gs,
                    s,
                    nodes,
                    edges,
                    steps,
                    k,
                    reached,
                    there,
                    distributed::hop_conditions(hop),
                    step_run.fetched,
                );
            },
            PlanStepView::AntiJoin(anti) => {
                lemma_anti_agrees(
                    rpc,
                    map,
                    g,
                    gs,
                    s,
                    nodes,
                    edges,
                    steps,
                    k,
                    anti,
                    rows,
                    whole,
                    step_run.fetched,
                    step_run.checks,
                );
            },
            _ => {},
        }
    }
}

/// A plan gives the same rows on a divided graph as on the undivided one:
/// whatever was asked and answered while it was executed, as long as the
/// replicas answer from the indexes of their partitions, it succeeds with
/// exactly the rows that its steps give on one index of the whole graph, each
/// once.
pub proof fn law_a_plan_is_the_same_divided_or_not<R: PartitionRpc>(
    rpc: R,
    map: PartitionMap,
    g: IndexGeneration,
    gs: Seq<IndexGeneration>,
    s: SchemaView,
    nodes: Seq<ScannedNodeView>,
    edges: Seq<ScannedEdgeView>,
    plan: QueryPlanView,
    run: PlanRun,
)
    requires
        agreement::holds_all(g, s, nodes, edges),
        agreement::divides(gs, s, nodes, edges),
        agreement::no_dangling(nodes, edges),
        agreement::unique_edges(edges),
        all_serve(rpc, map, gs),
        chained(plan.steps),
        distributed::asked_plan(rpc, map, gs.len() as u32, plan, run),
    ensures
        distributed::plan_outcome(map, gs.len() as u32, plan, run) is Ok,
        same_rows(
            distributed::plan_outcome(map, gs.len() as u32, plan, run)->Ok_0,
            plan_on(g, plan),
        ),
        (distributed::plan_outcome(map, gs.len() as u32, plan, run)->Ok_0).no_duplicates(),
{
    let n = gs.len() as u32;
    let steps = plan.steps;
    let last = (steps.len() - 1) as nat;
    lemma_steps_agree(rpc, map, g, gs, s, nodes, edges, plan, run, last);
    let rows = distributed::rows_after(map, n, plan, run, last)->Ok_0;
    let whole = rows_on(g, steps, last);
    assert forall|i: int| 0 <= i < rows.len() implies sound(
        steps,
        edges,
        last,
        #[trigger] rows[i],
    ) by {
        assert(rows.contains(rows[i]));
        lemma_rows_are_sound(g, s, nodes, edges, steps, last, rows[i]);
    }
    lemma_filter_agrees(
        rpc,
        map,
        g,
        gs,
        s,
        nodes,
        edges,
        steps,
        last,
        rows,
        whole,
        plan.remaining,
        run.last,
    );
    let kept = distributed::filter_outcome(rows, plan.remaining, run.last)->Ok_0;
    let out = distributed::plan_outcome(map, n, plan, run)->Ok_0;
    assert(out == routing::distinct(kept));
    assert forall|row: BindingView| #[trigger] out.contains(row) <==> plan_on(
        g,
        plan,
    ).contains(row) by {
        routing::lemma_distinct(kept, row);
        assert(kept.contains(row) <==> plan_on(g, plan).contains(row));
    }
    routing::lemma_distinct(kept, BindingView::of_node(seq![], NodeId(0)));
}

/// The number of partitions makes no difference: two clusters that serve the
/// same graph give the same rows for a plan.
pub proof fn law_the_number_of_partitions_makes_no_difference<R: PartitionRpc, Q: PartitionRpc>(
    rpc: R,
    map: PartitionMap,
    gs: Seq<IndexGeneration>,
    run: PlanRun,
    other_rpc: Q,
    other_map: PartitionMap,
    other_gs: Seq<IndexGeneration>,
    other_run: PlanRun,
    g: IndexGeneration,
    s: SchemaView,
    nodes: Seq<ScannedNodeView>,
    edges: Seq<ScannedEdgeView>,
    plan: QueryPlanView,
)
    requires
        agreement::holds_all(g, s, nodes, edges),
        agreement::divides(gs, s, nodes, edges),
        agreement::divides(other_gs, s, nodes, edges),
        agreement::no_dangling(nodes, edges),
        agreement::unique_edges(edges),
        all_serve(rpc, map, gs),
        all_serve(other_rpc, other_map, other_gs),
        chained(plan.steps),
        distributed::asked_plan(rpc, map, gs.len() as u32, plan, run),
        distributed::asked_plan(other_rpc, other_map, other_gs.len() as u32, plan, other_run),
    ensures
        distributed::plan_outcome(map, gs.len() as u32, plan, run) is Ok,
        distributed::plan_outcome(other_map, other_gs.len() as u32, plan, other_run) is Ok,
        same_rows(
            distributed::plan_outcome(map, gs.len() as u32, plan, run)->Ok_0,
            distributed::plan_outcome(other_map, other_gs.len() as u32, plan, other_run)->Ok_0,
        ),
{
    law_a_plan_is_the_same_divided_or_not(rpc, map, g, gs, s, nodes, edges, plan, run);
    law_a_plan_is_the_same_divided_or_not(
        other_rpc,
        other_map,
        g,
        other_gs,
        s,
        nodes,
        edges,
        plan,
        other_run,
    );
    let a = distributed::plan_outcome(map, gs.len() as u32, plan, run)->Ok_0;
    let b = distributed::plan_outcome(other_map, other_gs.len() as u32, plan, other_run)->Ok_0;
    assert forall|row: BindingView| #[trigger] a.contains(row) <==> b.contains(row) by {
        assert(a.contains(row) <==> plan_on(g, plan).contains(row));
        assert(b.contains(row) <==> plan_on(g, plan).contains(row));
    }
}

/// That a query names its nodes and its edges apart, no name that is sent is
/// empty, and the doubles of its `NOT EXISTS` conditions are known.
pub open spec fn well_named(q: QueryView) -> bool {
    let steps = q.pattern.steps;
    &&& forall|i: int, j: int|
        0 <= i < j < steps.len() && (#[trigger] steps[i]) is Node && (#[trigger] steps[j]) is Node
            ==> (steps[i]->Node_0).alias != (steps[j]->Node_0).alias
    &&& forall|i: int, j: int|
        0 <= i < j < steps.len() && (#[trigger] steps[i]) is Edge && (#[trigger] steps[j]) is Edge
            && (steps[i]->Edge_0).alias is Some ==> (steps[i]->Edge_0).alias != (
        steps[j]->Edge_0).alias
    &&& forall|i: int|
        0 <= i < steps.len() && (#[trigger] steps[i]) is Edge ==> grpc_partition_rpc::not_empty(
            (steps[i]->Edge_0).edge_type,
        ) && grpc_partition_rpc::not_empty((steps[i]->Edge_0).alias)
    &&& forall|i: int|
        0 <= i < q.where_conditions.len() ==> ((
        #[trigger] q.where_conditions[i]) matches WhereConditionView::NotExists(sub) ==> ({
            let anti = planner::anti_join_step(sub);
            grpc_partition_rpc::not_empty(anti.edge_type) && grpc_partition_rpc::doubles_known(
                anti.literal_conditions,
            )
        }))
}

/// How many edges the pattern of a query has.
pub open spec fn edge_count(q: QueryView) -> nat {
    ((q.pattern.steps.len() - 1) / 2) as nat
}

/// What the steps of a plan bind, by the pattern of its query.
pub proof fn lemma_bound_by_pattern(q: QueryView, k: nat, alias: Seq<char>)
    requires
        planner::plannable(q),
        k < planner::plan_of(q).steps.len(),
    ensures
        k <= edge_count(q) ==> (bound(planner::plan_of(q).steps, k).contains(alias) <==> exists|
            i: int,
        |
            0 <= i <= k && ((#[trigger] q.pattern.steps[2 * i])->Node_0).alias == alias),
        k > edge_count(q) ==> (bound(planner::plan_of(q).steps, k).contains(alias) <==> bound(
            planner::plan_of(q).steps,
            edge_count(q),
        ).contains(alias)),
    decreases k,
{
    let steps = planner::plan_of(q).steps;
    let pattern = q.pattern.steps;
    planner::law_plans_walk_in_a_chain(q, k as int);
    if k == 0 {
        assert(steps[0] == planner::start_step(pattern[0]->Node_0)) by {
            planner::lemma_plan_steps(q, 0);
        }
        if bound(steps, 0).contains(alias) {
            assert((pattern[2 * 0int]->Node_0).alias == alias);
        }
    } else {
        let m = (k - 1) as nat;
        lemma_bound_by_pattern(q, m, alias);
        if k <= edge_count(q) {
            if exists|i: int| 0 <= i <= m && ((#[trigger] pattern[2 * i])->Node_0).alias == alias {
                let i = choose|i: int|
                    0 <= i <= m && ((#[trigger] pattern[2 * i])->Node_0).alias == alias;
                assert(0 <= i <= k && (pattern[2 * i]->Node_0).alias == alias);
            }
            if exists|i: int| 0 <= i <= k && ((#[trigger] pattern[2 * i])->Node_0).alias == alias {
                let i = choose|i: int|
                    0 <= i <= k && ((#[trigger] pattern[2 * i])->Node_0).alias == alias;
                if i <= m {
                    assert(0 <= i <= m && (pattern[2 * i]->Node_0).alias == alias);
                }
            }
            if bound(steps, k).contains(alias) && !bound(steps, m).contains(alias) {
                assert((pattern[2 * k as int]->Node_0).alias == alias);
            }
        }
    }
}

/// The plan of a valid query that names its nodes and its edges apart is
/// chained: so all that is said of chained plans holds of it.
pub proof fn law_plans_of_valid_queries_are_chained(q: QueryView, s: SchemaView)
    requires
        planner::plannable(q),
        validator::query_errors(q, s).len() == 0,
        well_named(q),
    ensures
        chained(planner::plan_of(q).steps),
{
    let steps = planner::plan_of(q).steps;
    let pattern = q.pattern.steps;
    let count = edge_count(q);
    planner::lemma_plan_steps(q, 0);
    planner::law_plans_walk_in_a_chain(q, 0);
    assert(edges_named_once(steps)) by {
        assert forall|i: int, j: int|
            0 <= i < j < steps.len() && (#[trigger] steps[i]) is ExpandHop && (
            #[trigger] steps[j]) is ExpandHop && (
            steps[i]->ExpandHop_0).edge_alias is Some implies (steps[i]->ExpandHop_0).edge_alias
            != (steps[j]->ExpandHop_0).edge_alias by {
            planner::law_plans_walk_in_a_chain(q, i);
            planner::law_plans_walk_in_a_chain(q, j);
            planner::lemma_plan_steps(q, i);
            planner::lemma_plan_steps(q, j);
            assert(pattern[2 * i - 1] is Edge);
            assert(pattern[2 * j - 1] is Edge);
        }
    }
    assert forall|k: nat| 1 <= k < steps.len() implies #[trigger] follows(steps, k) by {
        planner::law_plans_walk_in_a_chain(q, k as int);
        planner::lemma_plan_steps(q, k as int);
        let m = (k - 1) as nat;
        if k <= count {
            let from = (pattern[2 * k - 2]->Node_0).alias;
            let to = (pattern[2 * k as int]->Node_0).alias;
            lemma_bound_by_pattern(q, m, from);
            lemma_bound_by_pattern(q, m, to);
            assert((pattern[2 * (k - 1)]->Node_0).alias == from);
            if bound(steps, m).contains(to) {
                let i = choose|i: int|
                    0 <= i <= m && ((#[trigger] pattern[2 * i])->Node_0).alias == to;
                assert(pattern[2 * i] is Node);
                assert(pattern[2 * k as int] is Node);
            }
            assert(pattern[2 * k - 1] is Edge);
        } else {
            let c = planner::lemma_anti_join_steps(q.where_conditions, k - 1 - count);
            let sub = q.where_conditions[c]->NotExists_0;
            dsl::laws::law_valid_queries_correlate_not_exists(q, s, c);
            let anti = planner::anti_join_step(sub);
            assert(steps[k as int] == PlanStepView::AntiJoin(anti));
            lemma_anchor_is_bound(q, m, anti.from_alias);
            lemma_anchor_is_bound(q, m, anti.to_alias);
        }
    }
}

/// Once the whole pattern is walked, every node of it is bound.
proof fn lemma_anchor_is_bound(q: QueryView, m: nat, alias: Seq<char>)
    requires
        planner::plannable(q),
        edge_count(q) <= m < planner::plan_of(q).steps.len(),
        validator::binds_node(q.pattern.steps, alias),
    ensures
        bound(planner::plan_of(q).steps, m).contains(alias),
{
    let pattern = q.pattern.steps;
    let count = edge_count(q);
    let i = choose|i: int|
        0 <= i < pattern.len() && (#[trigger] pattern[i] matches PatternStepView::Node(n)
            && n.alias == alias);
    assert(i % 2 == 0);
    let h = i / 2;
    assert(2 * h == i);
    assert(0 <= h <= count);
    assert((pattern[2 * h]->Node_0).alias == alias);
    lemma_bound_by_pattern(q, count, alias);
    lemma_bound_by_pattern(q, m, alias);
}

} // verus!
