//! What the rows of a plan are: those that bind every alias of the plan so
//! that each step holds of them.
//!
//! The order of the steps and the partitions are no part of that. What a query
//! means, whatever its plan, is said in `matches`.
use crate::cluster::PartitionMap;
use crate::dsl::validator;
use crate::dsl::{Direction, HopRange, QueryView};
use crate::index;
use crate::index::builder;
use crate::index::builder::{Posting, ScannedEdgeView, ScannedNodeView};
use crate::index::laws;
use crate::index::{IndexGeneration, PartitionId, PropertyKeyView};
use crate::query::agreement;
use crate::query::distributed;
use crate::query::distributed::{PartitionRpc, PlanRun};
use crate::query::hydration;
use crate::query::hydration::RecordsView;
use crate::query::local_executor;
use crate::query::lookup;
use crate::query::planner;
use crate::query::walk;
use crate::query::whole_plan;
use crate::query::{BindingView, ExpandHopView, PlanStepView, QueryPlanView};
use crate::schema::partitioning;
use crate::schema::{NodeId, SchemaView};
use vstd::prelude::*;

verus! {

/// The records of a graph.
pub open spec fn graph_records(nodes: Seq<ScannedNodeView>, edges: Seq<ScannedEdgeView>) -> RecordsView {
    RecordsView {
        nodes: builder::node_record_map(nodes),
        edges: builder::edge_record_map(edges, PartitionId(0), 1),
    }
}

/// Whether an edge of the wanted type leads from a node to another one.
pub open spec fn leads_over(
    e: ScannedEdgeView,
    direction: Direction,
    edge_type: Option<Seq<char>>,
    from: NodeId,
    to: NodeId,
) -> bool {
    let outgoing = agreement::is_outgoing(direction);
    builder::near_end(e.row, outgoing) == from && builder::far_end(e.row, outgoing) == to
        && agreement::edge_fits(e, edge_type)
}

/// Whether one of the edges of a graph does.
pub open spec fn joined(
    edges: Seq<ScannedEdgeView>,
    direction: Direction,
    edge_type: Option<Seq<char>>,
    from: NodeId,
    to: NodeId,
) -> bool {
    exists|e: int|
        0 <= e < edges.len() && leads_over(#[trigger] edges[e], direction, edge_type, from, to)
}

/// That each node of a path is joined to the next one.
pub open spec fn trail(
    edges: Seq<ScannedEdgeView>,
    direction: Direction,
    edge_type: Option<Seq<char>>,
    path: Seq<NodeId>,
) -> bool {
    forall|i: int|
        0 < i < path.len() ==> joined(
            edges,
            direction,
            edge_type,
            path[i - 1],
            #[trigger] path[i],
        )
}

/// Whether a path with as many edges as a hop may take leads from a node to
/// another one.
pub open spec fn within_reach(
    edges: Seq<ScannedEdgeView>,
    direction: Direction,
    edge_type: Option<Seq<char>>,
    hops: HopRange,
    from: NodeId,
    to: NodeId,
) -> bool {
    exists|path: Seq<NodeId>| #[trigger]
        trail(edges, direction, edge_type, path) && 2 <= path.len() && hops.min <= path.len() - 1
            <= hops.max && path[0] == from && path.last() == to
}

/// Whether the nodes that a row binds are joined as a hop says, by the edge
/// that the row binds where the hop names it.
pub open spec fn hop_holds(edges: Seq<ScannedEdgeView>, hop: ExpandHopView, row: BindingView) -> bool {
    let from = row.nodes[hop.from_alias];
    let to = row.nodes[hop.to_alias];
    if local_executor::binds_edge(hop) {
        exists|e: int|
            0 <= e < edges.len() && leads_over(
                #[trigger] edges[e],
                hop.direction,
                hop.edge_type,
                from,
                to,
            ) && edges[e].row.id == row.edges[hop.edge_alias->Some_0]
    } else {
        within_reach(edges, hop.direction, hop.edge_type, hop.hops, from, to)
    }
}

/// Whether a node of a label has an indexed property with a value, or with the
/// instant that the value names.
pub open spec fn has_value(
    s: SchemaView,
    nodes: Seq<ScannedNodeView>,
    label: Seq<char>,
    property: Seq<char>,
    key: PropertyKeyView,
    id: NodeId,
) -> bool {
    builder::postings(nodes, s).contains(Posting { label, property, key, id }) || (
    lookup::instant_key(key, lookup::key_instant(key)) matches Some(k) && builder::postings(
        nodes,
        s,
    ).contains(Posting { label, property, key: k, id }))
}

/// Whether a step holds of a row that binds its aliases.
pub open spec fn step_holds(
    s: SchemaView,
    nodes: Seq<ScannedNodeView>,
    edges: Seq<ScannedEdgeView>,
    step: PlanStepView,
    row: BindingView,
) -> bool {
    match step {
        PlanStepView::ResolveStart { alias, label_or_type, property, key } => has_value(
            s,
            nodes,
            label_or_type,
            property,
            key,
            row.nodes[alias],
        ),
        PlanStepView::ResolveAll { alias, label } => builder::node_record_map(nodes).dom().contains(
            row.nodes[alias].0,
        ) && builder::node_record_map(nodes)[row.nodes[alias].0].label == label,
        PlanStepView::ExpandHop(hop) => hop_holds(edges, hop, row) && hydration::meets_all(
            row,
            distributed::hop_conditions(hop),
            graph_records(nodes, edges),
        ),
        PlanStepView::AntiJoin(anti) => match hydration::resolved_conditions(
            row,
            anti,
            graph_records(nodes, edges),
        ) {
            Some(conditions) => !agreement::scanned_forbids(edges, anti, conditions, row),
            None => true,
        },
    }
}

/// The aliases that are bound to edges once step `k` is done.
pub open spec fn bound_edges(steps: Seq<PlanStepView>, k: nat) -> Set<Seq<char>>
    decreases k,
{
    let before = if k == 0 {
        Set::empty()
    } else {
        bound_edges(steps, (k - 1) as nat)
    };
    match steps[k as int] {
        PlanStepView::ExpandHop(hop) => if local_executor::binds_edge(hop) {
            before.insert(hop.edge_alias->Some_0)
        } else {
            before
        },
        _ => before,
    }
}

/// Whether the steps up to `k` hold of a row that binds what they bind.
pub open spec fn holds_upto(
    s: SchemaView,
    nodes: Seq<ScannedNodeView>,
    edges: Seq<ScannedEdgeView>,
    steps: Seq<PlanStepView>,
    k: nat,
    row: BindingView,
) -> bool {
    &&& row.nodes.dom() == whole_plan::bound(steps, k)
    &&& row.edges.dom() == bound_edges(steps, k)
    &&& forall|j: int| 0 <= j <= k ==> step_holds(s, nodes, edges, #[trigger] steps[j], row)
}

/// Whether a plan holds of a row: all of its steps do, and what remains to be
/// checked.
pub open spec fn plan_holds(
    s: SchemaView,
    nodes: Seq<ScannedNodeView>,
    edges: Seq<ScannedEdgeView>,
    plan: QueryPlanView,
    row: BindingView,
) -> bool {
    holds_upto(s, nodes, edges, plan.steps, (plan.steps.len() - 1) as nat, row)
        && hydration::meets_all(row, plan.remaining, graph_records(nodes, edges))
}

/// That all that must not exist is checked at the end.
pub open spec fn checks_last(steps: Seq<PlanStepView>) -> bool {
    forall|i: int, j: int|
        0 <= i < j < steps.len() && (#[trigger] steps[i]) is AntiJoin ==> (
        #[trigger] steps[j]) is AntiJoin
}

/// The index of the undivided graph has the records of the graph.
pub proof fn lemma_records(
    g: IndexGeneration,
    s: SchemaView,
    nodes: Seq<ScannedNodeView>,
    edges: Seq<ScannedEdgeView>,
)
    requires
        agreement::holds_all(g, s, nodes, edges),
    ensures
        whole_plan::records_of(g) == graph_records(nodes, edges),
{
    let part = builder::node_record_map(builder::owned_nodes(nodes, PartitionId(0), 1));
    let all = builder::node_record_map(nodes);
    assert forall|id: u64| #[trigger] part.dom().contains(id) == all.dom().contains(id) by {
        agreement::lemma_node_record_is_divided(nodes, 0, 1, id);
        partitioning::law_every_node_has_one_owner(NodeId(id), 1);
    }
    assert(part.dom() =~= all.dom());
    assert forall|id: u64| #[trigger] part.dom().contains(id) implies part[id] == all[id] by {
        agreement::lemma_node_record_is_divided(nodes, 0, 1, id);
    }
    assert(part =~= all);
}

/// On the index of the undivided graph an edge leads to a node where one of
/// the graph does.
proof fn lemma_edge_to(
    g: IndexGeneration,
    s: SchemaView,
    nodes: Seq<ScannedNodeView>,
    edges: Seq<ScannedEdgeView>,
    hop: ExpandHopView,
    x: NodeId,
    y: NodeId,
)
    requires
        agreement::holds_all(g, s, nodes, edges),
        agreement::no_dangling(nodes, edges),
    ensures
        walk::edge_to(g.topology, hop.direction, hop.edge_type, x, y) <==> joined(
            edges,
            hop.direction,
            hop.edge_type,
            x,
            y,
        ),
{
    let step = distributed::round_step(
        ExpandHopView { edge_alias: None, ..hop },
        1,
    );
    let b = BindingView::of_node(step.from_alias, x);
    let row = b.with_node(step.to_alias, y);
    assert(b.nodes[step.from_alias] == x);
    assert(row.nodes[step.to_alias] == y);
    agreement::lemma_edge_to_whole(g, s, nodes, edges, step, b, y);
    if agreement::one_edge(edges, step, b, row) {
        let e = choose|e: int|
            0 <= e < edges.len() && agreement::over_edge(#[trigger] edges[e], step, b, row);
        let far = builder::far_end(edges[e].row, agreement::is_outgoing(hop.direction));
        assert(b.with_node(step.to_alias, far).nodes[step.to_alias] == far);
        assert(leads_over(edges[e], hop.direction, hop.edge_type, x, y));
    }
    if joined(edges, hop.direction, hop.edge_type, x, y) {
        let e = choose|e: int|
            0 <= e < edges.len() && leads_over(
                #[trigger] edges[e],
                hop.direction,
                hop.edge_type,
                x,
                y,
            );
        assert(agreement::over_edge(edges[e], step, b, row));
    }
}

/// A walk on the index of the undivided graph finds what paths of the graph
/// lead to.
proof fn lemma_hits(
    g: IndexGeneration,
    s: SchemaView,
    nodes: Seq<ScannedNodeView>,
    edges: Seq<ScannedEdgeView>,
    hop: ExpandHopView,
    x: NodeId,
    y: NodeId,
)
    requires
        agreement::holds_all(g, s, nodes, edges),
        agreement::no_dangling(nodes, edges),
    ensures
        walk::hits_within(
            g.topology,
            hop.direction,
            hop.edge_type,
            x,
            hop.hops.min as nat,
            hop.hops.max as nat,
        ).contains(y) <==> within_reach(edges, hop.direction, hop.edge_type, hop.hops, x, y),
{
    let t = g.topology;
    let min = hop.hops.min as nat;
    let max = hop.hops.max as nat;
    walk::law_hits_are_the_ends_of_walks(t, hop.direction, hop.edge_type, x, min, max, y);
    if walk::hits_within(t, hop.direction, hop.edge_type, x, min, max).contains(y) {
        let k = choose|k: nat|
            1 <= k <= max && min <= k && #[trigger] walk::walks(
                t,
                hop.direction,
                hop.edge_type,
                x,
                y,
                k,
            );
        let path = choose|path: Seq<NodeId>| #[trigger]
            walk::leads(t, hop.direction, hop.edge_type, path, x, y, k);
        assert forall|i: int| 0 < i < path.len() implies joined(
            edges,
            hop.direction,
            hop.edge_type,
            path[i - 1],
            #[trigger] path[i],
        ) by {
            lemma_edge_to(g, s, nodes, edges, hop, path[i - 1], path[i]);
        }
        assert(trail(edges, hop.direction, hop.edge_type, path));
    }
    if within_reach(edges, hop.direction, hop.edge_type, hop.hops, x, y) {
        let path = choose|path: Seq<NodeId>| #[trigger]
            trail(edges, hop.direction, hop.edge_type, path) && 2 <= path.len() && hop.hops.min
                <= path.len() - 1 <= hop.hops.max && path[0] == x && path.last() == y;
        let k = (path.len() - 1) as nat;
        assert forall|i: int| 0 < i < path.len() implies walk::edge_to(
            t,
            hop.direction,
            hop.edge_type,
            path[i - 1],
            #[trigger] path[i],
        ) by {
            lemma_edge_to(g, s, nodes, edges, hop, path[i - 1], path[i]);
        }
        assert(walk::leads(t, hop.direction, hop.edge_type, path, x, y, k));
        assert(walk::walks(t, hop.direction, hop.edge_type, x, y, k));
    }
}

/// A hop from a row on the undivided graph gives the rows that extend it so
/// that the hop holds.
proof fn lemma_hop(
    g: IndexGeneration,
    s: SchemaView,
    nodes: Seq<ScannedNodeView>,
    edges: Seq<ScannedEdgeView>,
    hop: ExpandHopView,
    b: BindingView,
    row: BindingView,
)
    requires
        agreement::holds_all(g, s, nodes, edges),
        agreement::no_dangling(nodes, edges),
        hop.from_alias != hop.to_alias,
        row.nodes == b.nodes.insert(hop.to_alias, row.nodes[hop.to_alias]),
        row.edges == if local_executor::binds_edge(hop) {
            b.edges.insert(hop.edge_alias->Some_0, row.edges[hop.edge_alias->Some_0])
        } else {
            b.edges
        },
    ensures
        local_executor::expand_row(g.topology, hop, b).local.contains(row) <==> hop_holds(
            edges,
            hop,
            row,
        ),
{
    let t = g.topology;
    let from = b.nodes[hop.from_alias];
    let to = row.nodes[hop.to_alias];
    assert(row.nodes[hop.from_alias] == from);
    let f = local_executor::expand_row(t, hop, b);
    if local_executor::binds_edge(hop) {
        let name = hop.edge_alias->Some_0;
        let entries = walk::entries_of(t, from, hop.direction);
        assert forall|k: int| 0 <= k < entries.len() implies (
        #[trigger] entries[k]).dst_remote is None by {
            laws::law_one_partition_has_no_remote_references(g, s, nodes, edges, from, k);
        }
        agreement::lemma_no_remote_rows(hop, b, entries);
        assert(distributed::all_rows(f) =~= f.local);
        partitioning::law_every_node_has_one_owner(from, 1);
        agreement::law_a_hop_follows_the_edges_of_the_graph(
            g,
            s,
            0,
            1,
            nodes,
            edges,
            hop,
            b,
            row,
        );
        if agreement::one_edge(edges, hop, b, row) {
            let e = choose|e: int|
                0 <= e < edges.len() && agreement::over_edge(#[trigger] edges[e], hop, b, row);
            let far = builder::far_end(edges[e].row, agreement::is_outgoing(hop.direction));
            let made = b.with_node(hop.to_alias, far).with_edge(name, edges[e].row.id);
            assert(row == made);
            assert(made.nodes[hop.to_alias] == far);
            assert(made.edges[name] == edges[e].row.id);
            assert(leads_over(edges[e], hop.direction, hop.edge_type, from, to));
        }
        if hop_holds(edges, hop, row) {
            let e = choose|e: int|
                0 <= e < edges.len() && leads_over(
                    #[trigger] edges[e],
                    hop.direction,
                    hop.edge_type,
                    from,
                    to,
                ) && edges[e].row.id == row.edges[name];
            assert(row == b.with_node(hop.to_alias, to).with_edge(name, edges[e].row.id));
            assert(agreement::over_edge(edges[e], hop, b, row));
        }
    } else {
        let hits = walk::hits_within(
            t,
            hop.direction,
            hop.edge_type,
            from,
            hop.hops.min as nat,
            hop.hops.max as nat,
        );
        lemma_hits(g, s, nodes, edges, hop, from, to);
        assert(row == b.with_node(hop.to_alias, to));
        if f.local.contains(row) {
            let i = choose|i: int| 0 <= i < f.local.len() && f.local[i] == row;
            assert(f.local[i] == b.with_node(hop.to_alias, hits[i]));
            assert(b.with_node(hop.to_alias, hits[i]).nodes[hop.to_alias] == hits[i]);
            assert(hits.contains(to));
        }
        if hits.contains(to) {
            let i = choose|i: int| 0 <= i < hits.len() && hits[i] == to;
            assert(f.local[i] == row);
        }
    }
}

proof fn lemma_bound_grows(steps: Seq<PlanStepView>, j: nat, k: nat, alias: Seq<char>)
    requires
        j <= k,
    ensures
        whole_plan::bound(steps, j).contains(alias) ==> whole_plan::bound(steps, k).contains(alias),
        bound_edges(steps, j).contains(alias) ==> bound_edges(steps, k).contains(alias),
    decreases k,
{
    if j < k {
        lemma_bound_grows(steps, j, (k - 1) as nat, alias);
    }
}

/// An alias that is bound to an edge is that of a hop.
proof fn lemma_bound_edge(steps: Seq<PlanStepView>, k: nat, alias: Seq<char>) -> (i: int)
    requires
        bound_edges(steps, k).contains(alias),
    ensures
        0 <= i <= k,
        steps[i] matches PlanStepView::ExpandHop(hop) && hop.edge_alias == Some(alias),
    decreases k,
{
    match steps[k as int] {
        PlanStepView::ExpandHop(hop) => if local_executor::binds_edge(hop) && hop.edge_alias
            == Some(alias) {
            k as int
        } else {
            lemma_bound_edge(steps, (k - 1) as nat, alias)
        },
        _ => lemma_bound_edge(steps, (k - 1) as nat, alias),
    }
}

/// Whether a start or a hop holds depends on what it binds alone.
proof fn lemma_earlier_step(
    s: SchemaView,
    nodes: Seq<ScannedNodeView>,
    edges: Seq<ScannedEdgeView>,
    steps: Seq<PlanStepView>,
    j: nat,
    m: nat,
    b: BindingView,
    row: BindingView,
)
    requires
        whole_plan::chained(steps),
        j <= m < steps.len(),
        !(steps[j as int] is AntiJoin),
        b.nodes.dom() == whole_plan::bound(steps, m),
        b.edges.dom() == bound_edges(steps, m),
        forall|a: Seq<char>| #[trigger]
            b.nodes.dom().contains(a) ==> row.nodes.dom().contains(a) && row.nodes[a] == b.nodes[a],
        forall|a: Seq<char>| #[trigger]
            b.edges.dom().contains(a) ==> row.edges.dom().contains(a) && row.edges[a] == b.edges[a],
    ensures
        step_holds(s, nodes, edges, steps[j as int], b) == step_holds(
            s,
            nodes,
            edges,
            steps[j as int],
            row,
        ),
{
    match steps[j as int] {
        PlanStepView::ResolveStart { alias, .. } => {
            lemma_bound_grows(steps, j, m, alias);
            assert(b.nodes.dom().contains(alias));
        },
        PlanStepView::ResolveAll { alias, .. } => {
            lemma_bound_grows(steps, j, m, alias);
            assert(b.nodes.dom().contains(alias));
        },
        PlanStepView::ExpandHop(hop) => {
            if j > 0 {
                assert(whole_plan::follows(steps, j));
                lemma_bound_grows(steps, (j - 1) as nat, m, hop.from_alias);
            }
            lemma_bound_grows(steps, j, m, hop.to_alias);
            assert(b.nodes.dom().contains(hop.from_alias));
            assert(b.nodes.dom().contains(hop.to_alias));
            if local_executor::binds_edge(hop) {
                let name = hop.edge_alias->Some_0;
                lemma_bound_grows(steps, j, m, name);
                assert(b.edges.dom().contains(name));
            }
            let conditions = distributed::hop_conditions(hop);
            let records = graph_records(nodes, edges);
            assert forall|i: int| 0 <= i < conditions.len() implies hydration::meets_condition(
                b,
                #[trigger] conditions[i],
                records,
            ) == hydration::meets_condition(row, conditions[i], records) by {}
            assert(hydration::meets_all(b, conditions, records) == hydration::meets_all(
                row,
                conditions,
                records,
            ));
        },
        PlanStepView::AntiJoin(_) => {},
    }
}

/// On the index of the undivided graph a lookup finds what was posted.
proof fn lemma_posted(
    g: IndexGeneration,
    s: SchemaView,
    nodes: Seq<ScannedNodeView>,
    edges: Seq<ScannedEdgeView>,
    label: Seq<char>,
    property: Seq<char>,
    key: PropertyKeyView,
    id: NodeId,
)
    requires
        agreement::holds_all(g, s, nodes, edges),
    ensures
        index::ids_at(g.properties.tree(label, property), key).contains(id) <==> builder::postings(
            nodes,
            s,
        ).contains(Posting { label, property, key, id }),
{
    let posting = Posting { label, property, key, id };
    let whole = builder::postings(builder::owned_nodes(nodes, PartitionId(0), 1), s);
    partitioning::law_every_node_has_one_owner(id, 1);
    laws::law_postings_are_divided_by_owner(nodes, s, PartitionId(0), 1, posting);
    laws::law_a_tree_holds_what_was_posted(whole, label, property, key, id);
    assert(g.properties.tree(label, property) == builder::tree_of(whole, label, property));
    laws::law_equality_finds_what_is_under_the_key(g.properties.tree(label, property), key, id);
}

/// The rows of a start are those that it holds of.
proof fn lemma_start(
    g: IndexGeneration,
    s: SchemaView,
    nodes: Seq<ScannedNodeView>,
    edges: Seq<ScannedEdgeView>,
    steps: Seq<PlanStepView>,
    row: BindingView,
)
    requires
        agreement::holds_all(g, s, nodes, edges),
        whole_plan::chained(steps),
    ensures
        whole_plan::rows_on(g, steps, 0).contains(row) <==> holds_upto(
            s,
            nodes,
            edges,
            steps,
            0,
            row,
        ),
{
    let records = builder::node_record_map(nodes);
    match steps[0] {
        PlanStepView::ResolveStart { alias, label_or_type, property, key } => {
            let tree = g.properties.tree(label_or_type, property);
            let ids = agreement::start_ids(tree, key);
            agreement::lemma_bind_all(alias, ids, row);
            assert forall|id: NodeId| #[trigger] ids.contains(id) <==> has_value(
                s,
                nodes,
                label_or_type,
                property,
                key,
                id,
            ) by {
                agreement::lemma_start_ids(tree, key, id);
                lemma_posted(g, s, nodes, edges, label_or_type, property, key, id);
                if let Some(k) = lookup::instant_key(key, lookup::key_instant(key)) {
                    lemma_posted(g, s, nodes, edges, label_or_type, property, k, id);
                }
            }
            lemma_single(alias, row, steps);
            if local_executor::bind_all(alias, ids).contains(row) {
                let id = choose|id: NodeId|
                    ids.contains(id) && row == #[trigger] BindingView::of_node(alias, id);
                assert(row.nodes[alias] == id);
                assert(row.nodes.dom() =~= whole_plan::bound(steps, 0));
                assert(row.edges.dom() =~= bound_edges(steps, 0));
            }
            if holds_upto(s, nodes, edges, steps, 0, row) {
                assert(step_holds(s, nodes, edges, steps[0], row));
                assert(ids.contains(row.nodes[alias]));
                assert(row == BindingView::of_node(alias, row.nodes[alias]));
            }
        },
        PlanStepView::ResolveAll { alias, label } => {
            let ids = local_executor::labelled(
                g.node_records.order(),
                g.node_records.map(),
                label,
            );
            agreement::lemma_bind_all(alias, ids, row);
            assert forall|id: NodeId| #[trigger] ids.contains(id) <==> records.dom().contains(id.0)
                && records[id.0].label == label by {
                agreement::lemma_resolved_by_record(g, s, 0, 1, nodes, edges, label, id);
                partitioning::law_every_node_has_one_owner(id, 1);
            }
            lemma_single(alias, row, steps);
            if local_executor::bind_all(alias, ids).contains(row) {
                let id = choose|id: NodeId|
                    ids.contains(id) && row == #[trigger] BindingView::of_node(alias, id);
                assert(row.nodes[alias] == id);
                assert(row.nodes.dom() =~= whole_plan::bound(steps, 0));
                assert(row.edges.dom() =~= bound_edges(steps, 0));
            }
            if holds_upto(s, nodes, edges, steps, 0, row) {
                assert(step_holds(s, nodes, edges, steps[0], row));
                assert(ids.contains(row.nodes[alias]));
                assert(row == BindingView::of_node(alias, row.nodes[alias]));
            }
        },
        _ => {},
    }
}

/// A row that binds the start alone is the one for its node.
proof fn lemma_single(alias: Seq<char>, row: BindingView, steps: Seq<PlanStepView>)
    requires
        steps[0] matches PlanStepView::ResolveStart { alias: a, .. } ==> a == alias,
        steps[0] matches PlanStepView::ResolveAll { alias: a, .. } ==> a == alias,
        steps[0] is ResolveStart || steps[0] is ResolveAll,
    ensures
        row.nodes.dom() == whole_plan::bound(steps, 0) && row.edges.dom() == bound_edges(steps, 0)
            ==> row == BindingView::of_node(alias, row.nodes[alias]),
{
    if row.nodes.dom() == whole_plan::bound(steps, 0) && row.edges.dom() == bound_edges(steps, 0) {
        let made = BindingView::of_node(alias, row.nodes[alias]);
        assert(row.nodes.dom() =~= made.nodes.dom());
        assert(row.nodes =~= made.nodes);
        assert(row.edges =~= made.edges);
    }
}

/// A row without what step `k` adds to it.
spec fn without(hop: ExpandHopView, row: BindingView) -> BindingView {
    BindingView {
        nodes: row.nodes.remove(hop.to_alias),
        edges: if local_executor::binds_edge(hop) {
            row.edges.remove(hop.edge_alias->Some_0)
        } else {
            row.edges
        },
    }
}

/// A row that binds what the steps up to a hop bind extends one that binds
/// what the steps before it do.
proof fn lemma_without(steps: Seq<PlanStepView>, k: nat, hop: ExpandHopView, row: BindingView)
    requires
        whole_plan::chained(steps),
        1 <= k < steps.len(),
        steps[k as int] == PlanStepView::ExpandHop(hop),
        row.nodes.dom() == whole_plan::bound(steps, k),
        row.edges.dom() == bound_edges(steps, k),
    ensures
        without(hop, row).nodes.dom() == whole_plan::bound(steps, (k - 1) as nat),
        without(hop, row).edges.dom() == bound_edges(steps, (k - 1) as nat),
        row.nodes == without(hop, row).nodes.insert(hop.to_alias, row.nodes[hop.to_alias]),
        row.edges == if local_executor::binds_edge(hop) {
            without(hop, row).edges.insert(
                hop.edge_alias->Some_0,
                row.edges[hop.edge_alias->Some_0],
            )
        } else {
            without(hop, row).edges
        },
{
    let m = (k - 1) as nat;
    let b = without(hop, row);
    assert(whole_plan::follows(steps, k));
    assert(b.nodes.dom() =~= whole_plan::bound(steps, m));
    assert(row.nodes =~= b.nodes.insert(hop.to_alias, row.nodes[hop.to_alias]));
    if local_executor::binds_edge(hop) {
        let name = hop.edge_alias->Some_0;
        if bound_edges(steps, m).contains(name) {
            let i = lemma_bound_edge(steps, m, name);
            assert(steps[i] is ExpandHop && steps[k as int] is ExpandHop);
        }
        assert(b.edges.dom() =~= bound_edges(steps, m));
        assert(row.edges =~= b.edges.insert(name, row.edges[name]));
    }
}

/// After every step the rows on the undivided graph are those that the steps
/// so far hold of.
proof fn lemma_rows_hold(
    g: IndexGeneration,
    s: SchemaView,
    nodes: Seq<ScannedNodeView>,
    edges: Seq<ScannedEdgeView>,
    steps: Seq<PlanStepView>,
    k: nat,
    row: BindingView,
)
    requires
        agreement::holds_all(g, s, nodes, edges),
        agreement::no_dangling(nodes, edges),
        agreement::unique_edges(edges),
        whole_plan::chained(steps),
        checks_last(steps),
        k < steps.len(),
    ensures
        whole_plan::rows_on(g, steps, k).contains(row) <==> holds_upto(
            s,
            nodes,
            edges,
            steps,
            k,
            row,
        ),
    decreases k, 1int,
{
    if k == 0 {
        lemma_start(g, s, nodes, edges, steps, row);
    } else {
        let m = (k - 1) as nat;
        lemma_records(g, s, nodes, edges);
        assert(whole_plan::follows(steps, k));
        match steps[k as int] {
            PlanStepView::ExpandHop(hop) => {
                lemma_hop_step_holds(g, s, nodes, edges, steps, k, hop, row);
            },
            PlanStepView::AntiJoin(anti) => {
                let rows = whole_plan::rows_on(g, steps, m);
                lemma_rows_hold(g, s, nodes, edges, steps, m, row);
                whole_plan::lemma_left_by(g, anti, rows, row);
                if let Some(conditions) = hydration::resolved_conditions(
                    row,
                    anti,
                    graph_records(nodes, edges),
                ) {
                    partitioning::law_every_node_has_one_owner(row.nodes[anti.from_alias], 1);
                    agreement::law_not_exists_is_decided_by_the_owner(
                        g,
                        s,
                        0,
                        1,
                        nodes,
                        edges,
                        anti,
                        conditions,
                        row,
                    );
                }
                assert(step_holds(s, nodes, edges, steps[k as int], row) == !whole_plan::excluded(
                    g,
                    anti,
                    row,
                ));
                if holds_upto(s, nodes, edges, steps, m, row) && step_holds(
                    s,
                    nodes,
                    edges,
                    steps[k as int],
                    row,
                ) {
                    assert forall|j: int| 0 <= j <= k implies step_holds(
                        s,
                        nodes,
                        edges,
                        #[trigger] steps[j],
                        row,
                    ) by {}
                }
            },
            _ => {},
        }
    }
}

proof fn lemma_hop_step_holds(
    g: IndexGeneration,
    s: SchemaView,
    nodes: Seq<ScannedNodeView>,
    edges: Seq<ScannedEdgeView>,
    steps: Seq<PlanStepView>,
    k: nat,
    hop: ExpandHopView,
    row: BindingView,
)
    requires
        agreement::holds_all(g, s, nodes, edges),
        agreement::no_dangling(nodes, edges),
        agreement::unique_edges(edges),
        whole_plan::chained(steps),
        checks_last(steps),
        1 <= k < steps.len(),
        steps[k as int] == PlanStepView::ExpandHop(hop),
    ensures
        whole_plan::rows_on(g, steps, k).contains(row) <==> holds_upto(
            s,
            nodes,
            edges,
            steps,
            k,
            row,
        ),
    decreases k, 0int,
{
    let m = (k - 1) as nat;
    let t = g.topology;
    let rows = whole_plan::rows_on(g, steps, m);
    let conditions = distributed::hop_conditions(hop);
    let reached = local_executor::expand_rows(t, hop, rows).local;
    lemma_records(g, s, nodes, edges);
    assert(whole_plan::follows(steps, k));
    whole_plan::lemma_keep_meeting(reached, conditions, whole_plan::records_of(g), row);
    agreement::lemma_expand_rows(t, hop, rows, row);
    assert forall|j: int| 0 <= j < k implies !((#[trigger] steps[j]) is AntiJoin) by {
        assert(steps[k as int] is ExpandHop);
    }
    if whole_plan::rows_on(g, steps, k).contains(row) {
        let i = choose|i: int|
            0 <= i < rows.len() && local_executor::expand_row(
                t,
                hop,
                #[trigger] rows[i],
            ).local.contains(row);
        let b = rows[i];
        assert(rows.contains(b));
        lemma_rows_hold(g, s, nodes, edges, steps, m, b);
        lemma_extends(g, s, nodes, edges, steps, k, hop, b, row);
        lemma_hop(g, s, nodes, edges, hop, b, row);
        assert forall|j: int| 0 <= j <= k implies step_holds(
            s,
            nodes,
            edges,
            #[trigger] steps[j],
            row,
        ) by {
            if j < k {
                assert(step_holds(s, nodes, edges, steps[j], b));
                lemma_earlier_step(s, nodes, edges, steps, j as nat, m, b, row);
            }
        }
    }
    if holds_upto(s, nodes, edges, steps, k, row) {
        let b = without(hop, row);
        lemma_without(steps, k, hop, row);
        assert forall|j: int| 0 <= j <= m implies step_holds(
            s,
            nodes,
            edges,
            #[trigger] steps[j],
            b,
        ) by {
            assert(step_holds(s, nodes, edges, steps[j], row));
            lemma_earlier_step(s, nodes, edges, steps, j as nat, m, b, row);
        }
        lemma_rows_hold(g, s, nodes, edges, steps, m, b);
        lemma_hop(g, s, nodes, edges, hop, b, row);
        assert(step_holds(s, nodes, edges, steps[k as int], row));
        let i = choose|i: int| 0 <= i < rows.len() && rows[i] == b;
        assert(local_executor::expand_row(t, hop, rows[i]).local.contains(row));
    }
}

/// A row of a hop extends the row that it comes from.
proof fn lemma_extends(
    g: IndexGeneration,
    s: SchemaView,
    nodes: Seq<ScannedNodeView>,
    edges: Seq<ScannedEdgeView>,
    steps: Seq<PlanStepView>,
    k: nat,
    hop: ExpandHopView,
    b: BindingView,
    row: BindingView,
)
    requires
        agreement::holds_all(g, s, nodes, edges),
        agreement::no_dangling(nodes, edges),
        1 <= k < steps.len(),
        steps[k as int] == PlanStepView::ExpandHop(hop),
        whole_plan::chained(steps),
        b.nodes.dom() == whole_plan::bound(steps, (k - 1) as nat),
        b.edges.dom() == bound_edges(steps, (k - 1) as nat),
        local_executor::expand_row(g.topology, hop, b).local.contains(row),
    ensures
        hop.from_alias != hop.to_alias,
        row.nodes.dom() == whole_plan::bound(steps, k),
        row.edges.dom() == bound_edges(steps, k),
        row.nodes == b.nodes.insert(hop.to_alias, row.nodes[hop.to_alias]),
        row.edges == if local_executor::binds_edge(hop) {
            b.edges.insert(hop.edge_alias->Some_0, row.edges[hop.edge_alias->Some_0])
        } else {
            b.edges
        },
        forall|a: Seq<char>| #[trigger]
            b.nodes.dom().contains(a) ==> row.nodes.dom().contains(a) && row.nodes[a] == b.nodes[a],
        forall|a: Seq<char>| #[trigger]
            b.edges.dom().contains(a) ==> row.edges.dom().contains(a) && row.edges[a] == b.edges[a],
{
    let m = (k - 1) as nat;
    assert(whole_plan::follows(steps, k));
    whole_plan::lemma_whole_hop(g, s, nodes, edges, hop, b, row);
    if local_executor::binds_edge(hop) {
        let name = hop.edge_alias->Some_0;
        let e = choose|e: int|
            0 <= e < edges.len() && agreement::over_edge(#[trigger] edges[e], hop, b, row);
        let far = builder::far_end(edges[e].row, agreement::is_outgoing(hop.direction));
        assert(row == b.with_node(hop.to_alias, far).with_edge(name, edges[e].row.id));
        if bound_edges(steps, m).contains(name) {
            let i = lemma_bound_edge(steps, m, name);
            assert(steps[i] is ExpandHop && steps[k as int] is ExpandHop);
        }
    } else {
        let y = choose|y: NodeId| row == #[trigger] b.with_node(hop.to_alias, y);
    }
    assert(row.nodes =~= b.nodes.insert(hop.to_alias, row.nodes[hop.to_alias]));
    assert(row.nodes.dom() =~= whole_plan::bound(steps, k));
    assert(row.edges.dom() =~= bound_edges(steps, k));
}

/// On one index of the whole graph a plan gives exactly the rows that it holds
/// of.
pub proof fn law_a_plan_gives_the_rows_that_it_holds_of(
    g: IndexGeneration,
    s: SchemaView,
    nodes: Seq<ScannedNodeView>,
    edges: Seq<ScannedEdgeView>,
    plan: QueryPlanView,
    row: BindingView,
)
    requires
        agreement::holds_all(g, s, nodes, edges),
        agreement::no_dangling(nodes, edges),
        agreement::unique_edges(edges),
        whole_plan::chained(plan.steps),
        checks_last(plan.steps),
    ensures
        whole_plan::plan_on(g, plan).contains(row) <==> plan_holds(s, nodes, edges, plan, row),
{
    let last = (plan.steps.len() - 1) as nat;
    lemma_records(g, s, nodes, edges);
    lemma_rows_hold(g, s, nodes, edges, plan.steps, last, row);
    whole_plan::lemma_keep_meeting(
        whole_plan::rows_on(g, plan.steps, last),
        plan.remaining,
        whole_plan::records_of(g),
        row,
    );
}

/// The plan of a query checks at the end what must not exist.
pub proof fn law_plans_check_last(q: QueryView)
    requires
        planner::plannable(q),
    ensures
        checks_last(planner::plan_of(q).steps),
{
    let steps = planner::plan_of(q).steps;
    assert forall|i: int, j: int|
        0 <= i < j < steps.len() && (#[trigger] steps[i]) is AntiJoin implies (
    #[trigger] steps[j]) is AntiJoin by {
        planner::law_plans_walk_in_a_chain(q, i);
        planner::law_plans_walk_in_a_chain(q, j);
    }
}

/// What a cluster answers to a valid query that names its nodes and its edges
/// apart are the rows that the plan of the query holds of, whatever was asked
/// and answered on the way, as long as the replicas answer from the indexes of
/// their partitions.
pub proof fn law_a_cluster_gives_the_rows_that_the_plan_holds_of<R: PartitionRpc>(
    rpc: R,
    map: PartitionMap,
    g: IndexGeneration,
    gs: Seq<IndexGeneration>,
    s: SchemaView,
    nodes: Seq<ScannedNodeView>,
    edges: Seq<ScannedEdgeView>,
    q: QueryView,
    run: PlanRun,
    row: BindingView,
)
    requires
        agreement::holds_all(g, s, nodes, edges),
        agreement::divides(gs, s, nodes, edges),
        agreement::no_dangling(nodes, edges),
        agreement::unique_edges(edges),
        whole_plan::all_serve(rpc, map, gs),
        planner::plannable(q),
        validator::query_errors(q, s).len() == 0,
        whole_plan::well_named(q),
        distributed::asked_plan(rpc, map, gs.len() as u32, planner::plan_of(q), run),
    ensures
        distributed::plan_outcome(map, gs.len() as u32, planner::plan_of(q), run) is Ok,
        (distributed::plan_outcome(
            map,
            gs.len() as u32,
            planner::plan_of(q),
            run,
        )->Ok_0).contains(row) <==> plan_holds(s, nodes, edges, planner::plan_of(q), row),
{
    let plan = planner::plan_of(q);
    whole_plan::law_plans_of_valid_queries_are_chained(q, s);
    law_plans_check_last(q);
    whole_plan::law_a_plan_is_the_same_divided_or_not(rpc, map, g, gs, s, nodes, edges, plan, run);
    law_a_plan_gives_the_rows_that_it_holds_of(g, s, nodes, edges, plan, row);
    let out = distributed::plan_outcome(map, gs.len() as u32, plan, run)->Ok_0;
    assert(out.contains(row) <==> whole_plan::plan_on(g, plan).contains(row));
}

} // verus!
