//! Partition nodes that are asked over the wire answer from their indexes.
use crate::cluster::{PartitionMap, ReplicaEndpointView};
use crate::coordinator::grpc_partition_rpc;
use crate::dsl::PropertyFilterView;
use crate::index::{EdgeRecordView, IndexGeneration, NodeRecordView};
use crate::partition_node::service;
use crate::query::agreement;
use crate::query::distributed;
use crate::query::distributed::PartitionRpc;
use crate::query::local_executor;
use crate::query::whole_plan;
use crate::query::{
    AntiJoinStepView, BindingView, ExecutionErrorView, ExpandHopView, FrontierView, PlanStepView,
};
use crate::schema::{EdgeId, NodeId};
use crate::wire::StatusView;
use vstd::prelude::*;

verus! {

/// Whether an answer of a node arrived: rows as they were sent, a failure as
/// some failure.
pub open spec fn arrived(
    sent: Result<Seq<BindingView>, StatusView>,
    reply: Result<Seq<BindingView>, ExecutionErrorView>,
) -> bool {
    match sent {
        Ok(rows) => reply == Ok::<Seq<BindingView>, ExecutionErrorView>(rows),
        Err(_) => reply is Err,
    }
}

/// That a node which serves an index is asked over the wire, and every answer
/// arrives: a step is put as its request, a step of the wrong kind fails, and
/// what comes back is what the node makes of the request. A request for a hop
/// that cannot be answered may come to anything.
pub open spec fn talks_to<R: PartitionRpc>(
    rpc: R,
    replica: ReplicaEndpointView,
    g: IndexGeneration,
) -> bool {
    &&& forall|step: PlanStepView, reply: Result<Seq<BindingView>, ExecutionErrorView>| #[trigger]
        rpc.start_answer(replica, step, reply) ==> match grpc_partition_rpc::start_request(step) {
            Ok(request) => arrived(service::start_reply(g, request), reply),
            Err(_) => reply is Err,
        }
    &&& forall|step: PlanStepView, reply: Result<Seq<BindingView>, ExecutionErrorView>| #[trigger]
        rpc.all_answer(replica, step, reply) ==> if step is ResolveAll {
            arrived(service::reply_of(local_executor::resolved_all(g, step)), reply)
        } else {
            reply is Err
        }
    &&& forall|
        hop: ExpandHopView,
        frontier: Seq<BindingView>,
        reply: Result<FrontierView, ExecutionErrorView>,
    | #[trigger]
        rpc.hop_answer(replica, PlanStepView::ExpandHop(hop), frontier, reply)
            && service::hop_answerable(grpc_partition_rpc::hop_request(hop, frontier)) ==> arrived(
            service::hop_reply(g, grpc_partition_rpc::hop_request(hop, frontier)),
            distributed::flat(reply),
        )
    &&& forall|
        step: AntiJoinStepView,
        conditions: Seq<PropertyFilterView>,
        frontier: Seq<BindingView>,
        reply: Result<Seq<BindingView>, ExecutionErrorView>,
    | #[trigger]
        rpc.check_answer(replica, step, conditions, frontier, reply) ==> arrived(
            service::anti_reply(
                g,
                grpc_partition_rpc::anti_request(step, conditions, frontier),
            ),
            reply,
        )
    &&& forall|
        ids: Seq<NodeId>,
        reply: Result<Seq<(NodeId, NodeRecordView)>, ExecutionErrorView>,
    | #[trigger]
        rpc.nodes_answer(replica, ids, reply) ==> reply == Ok::<
            Seq<(NodeId, NodeRecordView)>,
            ExecutionErrorView,
        >(whole_plan::told_nodes(g, ids))
    &&& forall|
        ids: Seq<EdgeId>,
        reply: Result<Seq<(EdgeId, EdgeRecordView)>, ExecutionErrorView>,
    | #[trigger]
        rpc.edges_answer(replica, ids, reply) ==> reply == Ok::<
            Seq<(EdgeId, EdgeRecordView)>,
            ExecutionErrorView,
        >(whole_plan::told_edges(g, ids))
}

/// A node that is asked over the wire answers from its index.
pub proof fn law_a_node_asked_over_the_wire_serves<R: PartitionRpc>(
    rpc: R,
    replica: ReplicaEndpointView,
    g: IndexGeneration,
)
    requires
        talks_to(rpc, replica, g),
    ensures
        whole_plan::serves(rpc, replica, g),
{
    assert forall|step: PlanStepView, reply: Result<Seq<BindingView>, ExecutionErrorView>|
        #[trigger]
        rpc.start_answer(replica, step, reply) && step is ResolveStart implies reply
        == local_executor::resolved_start(g, step) by {
        grpc_partition_rpc::law_a_start_is_answered_as_planned(g, step);
    }
    assert forall|
        hop: ExpandHopView,
        frontier: Seq<BindingView>,
        reply: Result<FrontierView, ExecutionErrorView>,
    | #[trigger]
        rpc.hop_answer(replica, PlanStepView::ExpandHop(hop), frontier, reply)
            && hop.filters.len() == 0 && local_executor::all_bind(frontier, hop.from_alias)
            && grpc_partition_rpc::not_empty(hop.to_label) && grpc_partition_rpc::not_empty(
            hop.edge_type,
        ) && grpc_partition_rpc::not_empty(hop.edge_alias) implies distributed::flat(reply)
        == distributed::flat(local_executor::expanded(g, hop, frontier)) by {
        let request = grpc_partition_rpc::hop_request(hop, frontier);
        assert(request.filters =~= Seq::empty());
        grpc_partition_rpc::law_a_hop_is_answered_as_planned(g, hop, frontier);
    }
    assert forall|
        step: AntiJoinStepView,
        conditions: Seq<PropertyFilterView>,
        frontier: Seq<BindingView>,
        reply: Result<Seq<BindingView>, ExecutionErrorView>,
    | #[trigger]
        rpc.check_answer(replica, step, conditions, frontier, reply)
            && grpc_partition_rpc::not_empty(step.edge_type) && grpc_partition_rpc::doubles_known(
            conditions,
        ) && local_executor::first_unbound(frontier, step) is None implies reply
        == local_executor::checked(g, step, conditions, frontier) by {
        grpc_partition_rpc::law_not_exists_is_answered_as_planned(g, step, conditions, frontier);
    }
}

/// A cluster whose nodes are all asked over the wire serves its graph: so what
/// is said of clusters that do holds of it.
pub proof fn law_a_cluster_asked_over_the_wire_serves<R: PartitionRpc>(
    rpc: R,
    map: PartitionMap,
    gs: Seq<IndexGeneration>,
)
    requires
        agreement::covers(map.known(), gs),
        forall|p: u32|
            p < gs.len() ==> (#[trigger] map.choice(p)) is Some && talks_to(
                rpc,
                map.choice(p)->Some_0,
                gs[p as int],
            ),
    ensures
        whole_plan::all_serve(rpc, map, gs),
{
    assert forall|p: u32| p < gs.len() implies (#[trigger] map.choice(p)) is Some
        && whole_plan::serves(rpc, map.choice(p)->Some_0, gs[p as int]) by {
        law_a_node_asked_over_the_wire_serves(rpc, map.choice(p)->Some_0, gs[p as int]);
    }
}

} // verus!
