//! A graph answers alike however many partitions it is divided into.
//!
//! The laws compare the index of the whole graph, as one partition, with the
//! indexes of its `n` partitions, all made from the same rows. They hold of
//! stores in which every edge leads from a node to a node.
use crate::cluster::PartitionMap;
use crate::dsl::{Direction, PropertyFilterView};
use crate::index;
use crate::index::builder;
use crate::index::builder::{ScannedEdgeView, ScannedNodeView};
use crate::index::laws;
use crate::index::{
    AdjacencyEntryView, IndexGeneration, KeyEntryView, PartitionId, PropertyKeyView, RemoteRef,
    TopologicalIndex,
};
use crate::query::distributed;
use crate::query::filter_eval;
use crate::query::local_executor;
use crate::query::lookup;
use crate::query::routing;
use crate::query::walk;
use crate::query::{
    AntiJoinStepView, BindingView, ExecutionErrorView, ExpandHopView, FrontierView, PlanStepView,
};
use crate::schema::partitioning;
use crate::schema::{EdgeId, NodeId, SchemaView};
use vstd::prelude::*;

verus! {

/// That every edge leads from a node to a node.
pub open spec fn no_dangling(nodes: Seq<ScannedNodeView>, edges: Seq<ScannedEdgeView>) -> bool {
    forall|i: int|
        0 <= i < edges.len() ==> builder::ids_of(nodes).contains((#[trigger] edges[i]).row.src)
            && builder::ids_of(nodes).contains(edges[i].row.dst)
}

/// That `gs` are the indexes of the partitions of a graph.
pub open spec fn divides(
    gs: Seq<IndexGeneration>,
    s: SchemaView,
    nodes: Seq<ScannedNodeView>,
    edges: Seq<ScannedEdgeView>,
) -> bool {
    &&& 0 < gs.len() <= u32::MAX
    &&& forall|p: int|
        0 <= p < gs.len() ==> builder::indexes(
            #[trigger] gs[p],
            s,
            PartitionId(p as u32),
            gs.len() as u32,
            nodes,
            edges,
        )
}

/// That `g` is the index of a graph as one partition.
pub open spec fn holds_all(
    g: IndexGeneration,
    s: SchemaView,
    nodes: Seq<ScannedNodeView>,
    edges: Seq<ScannedEdgeView>,
) -> bool {
    builder::indexes(g, s, PartitionId(0), 1, nodes, edges)
}

pub open spec fn is_outgoing(direction: Direction) -> bool {
    direction == Direction::Outgoing
}

/// Whether a scanned edge is of the wanted type.
pub open spec fn edge_fits(e: ScannedEdgeView, edge_type: Option<Seq<char>>) -> bool {
    match edge_type {
        Some(t) => e.edge_type == t,
        None => true,
    }
}

/// The row that an edge takes a row to.
pub open spec fn row_over(hop: ExpandHopView, b: BindingView, edge: EdgeId, to: NodeId) -> BindingView {
    if local_executor::binds_edge(hop) {
        b.with_node(hop.to_alias, to).with_edge(hop.edge_alias->Some_0, edge)
    } else {
        b.with_node(hop.to_alias, to)
    }
}

/// Whether one of the scanned edges takes a row to another one.
pub open spec fn one_edge(
    edges: Seq<ScannedEdgeView>,
    hop: ExpandHopView,
    b: BindingView,
    row: BindingView,
) -> bool {
    exists|i: int|
        0 <= i < edges.len() && over_edge(#[trigger] edges[i], hop, b, row)
}

pub open spec fn over_edge(
    e: ScannedEdgeView,
    hop: ExpandHopView,
    b: BindingView,
    row: BindingView,
) -> bool {
    let outgoing = is_outgoing(hop.direction);
    builder::near_end(e.row, outgoing) == b.nodes[hop.from_alias] && edge_fits(e, hop.edge_type)
        && row == row_over(hop, b, e.row.id, builder::far_end(e.row, outgoing))
}

/// That a hop is a single one.
pub open spec fn single(hop: ExpandHopView) -> bool {
    hop.hops.min == 1 && hop.hops.max == 1
}

/// The end of an entry, wherever it is.
pub open spec fn end_of(e: AdjacencyEntryView) -> Option<NodeId> {
    match e.dst_local {
        Some(d) => Some(d),
        None => match e.dst_remote {
            Some(r) => Some(r.node),
            None => None,
        },
    }
}

/// Whether an entry takes a row to another one.
pub open spec fn over_entry(
    e: AdjacencyEntryView,
    hop: ExpandHopView,
    b: BindingView,
    row: BindingView,
) -> bool {
    walk::type_fits(e, hop.edge_type) && end_of(e) is Some && row == row_over(
        hop,
        b,
        e.edge_id,
        end_of(e)->Some_0,
    )
}

/// The rows of a single hop that binds its edge are those of its entries.
proof fn lemma_edge_rows(
    b: BindingView,
    hop: ExpandHopView,
    entries: Seq<AdjacencyEntryView>,
    row: BindingView,
)
    requires
        local_executor::binds_edge(hop),
    ensures
        distributed::all_rows(
            FrontierView {
                local: local_executor::edge_rows(b, hop, entries),
                remote: local_executor::edge_rows_beyond(b, hop, entries),
            },
        ).contains(row) <==> exists|i: int|
            0 <= i < entries.len() && over_entry(#[trigger] entries[i], hop, b, row),
    decreases entries.len(),
{
    let local = local_executor::edge_rows(b, hop, entries);
    let remote = local_executor::edge_rows_beyond(b, hop, entries);
    let beyond = Seq::new(remote.len(), |i: int| remote[i].1);
    laws::lemma_contains_add(local, beyond, row);
    if entries.len() == 0 {
    } else {
        let shorter = entries.drop_last();
        lemma_edge_rows(b, hop, shorter, row);
        let e = entries.last();
        let local_rest = local_executor::edge_rows(b, hop, shorter);
        let remote_rest = local_executor::edge_rows_beyond(b, hop, shorter);
        let beyond_rest = Seq::new(remote_rest.len(), |i: int| remote_rest[i].1);
        laws::lemma_contains_add(local_rest, beyond_rest, row);
        if let Some(d) = e.dst_local {
            assert(remote == remote_rest);
            laws::lemma_contains_push(
                local_rest,
                b.with_node(hop.to_alias, d).with_edge(hop.edge_alias->Some_0, e.edge_id),
                row,
            );
        } else if let Some(r) = e.dst_remote {
            assert(local == local_rest);
            let x = b.with_node(hop.to_alias, r.node).with_edge(
                hop.edge_alias->Some_0,
                e.edge_id,
            );
            laws::lemma_contains_push(beyond_rest, x, row);
            if walk::type_fits(e, hop.edge_type) {
                assert(beyond =~= beyond_rest.push(x));
            }
        }
        assert(entries[entries.len() - 1] == e);
        if exists|i: int| 0 <= i < shorter.len() && over_entry(#[trigger] shorter[i], hop, b, row) {
            let i = choose|i: int|
                0 <= i < shorter.len() && over_entry(#[trigger] shorter[i], hop, b, row);
            assert(entries[i] == shorter[i]);
        }
        if exists|i: int| 0 <= i < entries.len() && over_entry(#[trigger] entries[i], hop, b, row) {
            let i = choose|i: int|
                0 <= i < entries.len() && over_entry(#[trigger] entries[i], hop, b, row);
            if i < shorter.len() {
                assert(entries[i] == shorter[i]);
            }
        }
    }
}

proof fn lemma_refer_more(
    found: Seq<RemoteRef>,
    entries: Seq<AdjacencyEntryView>,
    edge_type: Option<Seq<char>>,
    y: NodeId,
)
    ensures
        walk::nodes_of(walk::refer_more(found, entries, edge_type)).contains(y)
            <==> walk::nodes_of(found).contains(y) || exists|i: int|
            0 <= i < entries.len() && walk::type_fits(#[trigger] entries[i], edge_type)
                && entries[i].dst_local is None && entries[i].dst_remote is Some
                && entries[i].dst_remote->Some_0.node == y,
    decreases entries.len(),
{
    if entries.len() > 0 {
        let shorter = entries.drop_last();
        lemma_refer_more(found, shorter, edge_type, y);
        let rest = walk::refer_more(found, shorter, edge_type);
        let e = entries.last();
        if let (None, Some(r)) = (e.dst_local, e.dst_remote) {
            assert(walk::nodes_of(rest.push(r)) =~= walk::nodes_of(rest).push(r.node));
            laws::lemma_contains_push(walk::nodes_of(rest), r.node, y);
        }
        assert(entries[entries.len() - 1] == e);
        if exists|i: int|
            0 <= i < shorter.len() && walk::type_fits(#[trigger] shorter[i], edge_type)
                && shorter[i].dst_local is None && shorter[i].dst_remote is Some
                && shorter[i].dst_remote->Some_0.node == y {
            let i = choose|i: int|
                0 <= i < shorter.len() && walk::type_fits(#[trigger] shorter[i], edge_type)
                    && shorter[i].dst_local is None && shorter[i].dst_remote is Some
                    && shorter[i].dst_remote->Some_0.node == y;
            assert(entries[i] == shorter[i]);
        }
        if exists|i: int|
            0 <= i < entries.len() && walk::type_fits(#[trigger] entries[i], edge_type)
                && entries[i].dst_local is None && entries[i].dst_remote is Some
                && entries[i].dst_remote->Some_0.node == y {
            let i = choose|i: int|
                0 <= i < entries.len() && walk::type_fits(#[trigger] entries[i], edge_type)
                    && entries[i].dst_local is None && entries[i].dst_remote is Some
                    && entries[i].dst_remote->Some_0.node == y;
            if i < shorter.len() {
                assert(entries[i] == shorter[i]);
            }
        }
    }
}

/// What one hop from a node reaches: the ends of its entries.
proof fn lemma_one_hop_reaches(
    t: TopologicalIndex,
    direction: Direction,
    edge_type: Option<Seq<char>>,
    start: NodeId,
    y: NodeId,
)
    ensures
        walk::hits_within(t, direction, edge_type, start, 1, 1).contains(y) <==> walk::edge_to(
            t,
            direction,
            edge_type,
            start,
            y,
        ),
        walk::nodes_of(walk::refs_within(t, direction, edge_type, start, 1)).contains(y)
            <==> exists|i: int|
            0 <= i < walk::entries_of(t, start, direction).len() && walk::type_fits(
                #[trigger] walk::entries_of(t, start, direction)[i],
                edge_type,
            ) && walk::entries_of(t, start, direction)[i].dst_local is None && walk::entries_of(
                t,
                start,
                direction,
            )[i].dst_remote is Some && walk::entries_of(
                t,
                start,
                direction,
            )[i].dst_remote->Some_0.node == y,
{
    reveal_with_fuel(walk::hits_within, 2);
    reveal_with_fuel(walk::refs_within, 2);
    reveal_with_fuel(walk::level, 2);
    reveal_with_fuel(walk::next_refs, 2);
    let first = seq![start];
    assert(first[0] == start);
    assert(walk::level(t, direction, edge_type, start, 0) == first);
    assert(walk::level(t, direction, edge_type, start, 1) == walk::next_level(
        t,
        direction,
        edge_type,
        first,
    ));
    walk::lemma_next_level(t, direction, edge_type, first, y);
    assert(walk::hits_within(t, direction, edge_type, start, 1, 0) =~= Seq::<NodeId>::empty());
    walk::lemma_union_new(
        Seq::<NodeId>::empty(),
        walk::level(t, direction, edge_type, start, 1),
        y,
    );
    assert(!Seq::<NodeId>::empty().contains(y));
    assert(first.drop_last() =~= Seq::<NodeId>::empty());
    assert(first.last() == start);
    let entries = walk::entries_of(t, start, direction);
    assert(walk::refs_within(t, direction, edge_type, start, 0) =~= Seq::<RemoteRef>::empty());
    assert(walk::next_refs(t, direction, edge_type, Seq::empty(), first) == walk::refer_more(
        Seq::empty(),
        entries,
        edge_type,
    ));
    lemma_refer_more(Seq::empty(), entries, edge_type, y);
    assert(walk::nodes_of(Seq::<RemoteRef>::empty()) =~= Seq::<NodeId>::empty());
}

/// The rows of a single hop are those of the entries at its start.
proof fn lemma_row_entries(
    t: TopologicalIndex,
    hop: ExpandHopView,
    b: BindingView,
    row: BindingView,
)
    requires
        single(hop),
    ensures
        distributed::all_rows(local_executor::expand_row(t, hop, b)).contains(row) <==> exists|
            i: int,
        |
            0 <= i < walk::entries_of(t, b.nodes[hop.from_alias], hop.direction).len()
                && over_entry(
                #[trigger] walk::entries_of(t, b.nodes[hop.from_alias], hop.direction)[i],
                hop,
                b,
                row,
            ),
{
    let start = b.nodes[hop.from_alias];
    let entries = walk::entries_of(t, start, hop.direction);
    if local_executor::binds_edge(hop) {
        lemma_edge_rows(b, hop, entries, row);
    } else {
        let hits = walk::hits_within(t, hop.direction, hop.edge_type, start, 1, 1);
        let refs = walk::refs_within(t, hop.direction, hop.edge_type, start, 1);
        let local = local_executor::rows_to(b, hop.to_alias, hits);
        let remote = local_executor::rows_beyond(b, hop.to_alias, refs);
        let beyond = Seq::new(remote.len(), |i: int| remote[i].1);
        let all = distributed::all_rows(local_executor::expand_row(t, hop, b));
        assert(all == local + beyond);
        laws::lemma_contains_add(local, beyond, row);
        if all.contains(row) {
            if local.contains(row) {
                let j = choose|j: int| 0 <= j < local.len() && local[j] == row;
                let y = hits[j];
                lemma_one_hop_reaches(t, hop.direction, hop.edge_type, start, y);
                assert(hits.contains(y));
                let i = choose|i: int|
                    0 <= i < entries.len() && walk::type_fits(
                        #[trigger] entries[i],
                        hop.edge_type,
                    ) && entries[i].dst_local == Some(y);
                assert(over_entry(entries[i], hop, b, row));
            } else {
                let j = choose|j: int| 0 <= j < beyond.len() && beyond[j] == row;
                let y = refs[j].node;
                lemma_one_hop_reaches(t, hop.direction, hop.edge_type, start, y);
                assert(walk::nodes_of(refs)[j] == y);
                let i = choose|i: int|
                    0 <= i < entries.len() && walk::type_fits(
                        #[trigger] entries[i],
                        hop.edge_type,
                    ) && entries[i].dst_local is None && entries[i].dst_remote is Some
                        && entries[i].dst_remote->Some_0.node == y;
                assert(over_entry(entries[i], hop, b, row));
            }
        }
        if exists|i: int| 0 <= i < entries.len() && over_entry(#[trigger] entries[i], hop, b, row) {
            let i = choose|i: int|
                0 <= i < entries.len() && over_entry(#[trigger] entries[i], hop, b, row);
            let y = end_of(entries[i])->Some_0;
            lemma_one_hop_reaches(t, hop.direction, hop.edge_type, start, y);
            if entries[i].dst_local is Some {
                assert(walk::edge_to(t, hop.direction, hop.edge_type, start, y));
                let j = choose|j: int| 0 <= j < hits.len() && hits[j] == y;
                assert(local[j] == row);
            } else {
                assert(walk::nodes_of(refs).contains(y));
                let j = choose|j: int|
                    0 <= j < walk::nodes_of(refs).len() && walk::nodes_of(refs)[j] == y;
                assert(beyond[j] == row);
            }
        }
    }
}

/// On the partition that owns a node, and on the undivided graph, its entries
/// are those of the scanned edges, none of which is lost.
proof fn lemma_entries_are_edges(
    g: IndexGeneration,
    s: SchemaView,
    p: u32,
    n: u32,
    nodes: Seq<ScannedNodeView>,
    edges: Seq<ScannedEdgeView>,
    hop: ExpandHopView,
    b: BindingView,
    row: BindingView,
)
    requires
        n > 0,
        builder::indexes(g, s, PartitionId(p), n, nodes, edges),
        no_dangling(nodes, edges),
        partitioning::owner(b.nodes[hop.from_alias], n) == p,
    ensures
        (exists|i: int|
            0 <= i < walk::entries_of(
                g.topology,
                b.nodes[hop.from_alias],
                hop.direction,
            ).len() && over_entry(
                #[trigger] walk::entries_of(
                    g.topology,
                    b.nodes[hop.from_alias],
                    hop.direction,
                )[i],
                hop,
                b,
                row,
            )) <==> one_edge(edges, hop, b, row),
{
    let start = b.nodes[hop.from_alias];
    let partition = PartitionId(p);
    let outgoing = is_outgoing(hop.direction);
    let ids = builder::ids_of(builder::owned_nodes(nodes, partition, n));
    let entries = walk::entries_of(g.topology, start, hop.direction);
    assert(entries == g.topology.out_of(start) || entries == g.topology.in_to(start));
    assert(entries == if ids.contains(start) {
        builder::adjacent(edges, start, ids, partition, n, outgoing)
    } else {
        seq![]
    });
    laws::law_a_partition_holds_what_it_owns(nodes, partition, n, start);
    if exists|i: int| 0 <= i < entries.len() && over_entry(#[trigger] entries[i], hop, b, row) {
        let i = choose|i: int|
            0 <= i < entries.len() && over_entry(#[trigger] entries[i], hop, b, row);
        let e = entries[i];
        assert(entries.contains(e));
        laws::lemma_adjacent(edges, start, ids, partition, n, outgoing, e);
        let k = choose|k: int|
            0 <= k < edges.len() && builder::near_end((#[trigger] edges[k]).row, outgoing) == start
                && builder::leads_on(edges[k], ids, partition, n, outgoing)
                && e == builder::entry_of(edges[k], ids, partition, n, outgoing);
        assert(over_edge(edges[k], hop, b, row));
    }
    if one_edge(edges, hop, b, row) {
        let k = choose|k: int| 0 <= k < edges.len() && over_edge(#[trigger] edges[k], hop, b, row);
        let e = builder::entry_of(edges[k], ids, partition, n, outgoing);
        let far = builder::far_end(edges[k].row, outgoing);
        assert(builder::ids_of(nodes).contains(start));
        assert(builder::ids_of(nodes).contains(far));
        assert(ids.contains(start));
        laws::law_a_partition_holds_what_it_owns(nodes, partition, n, far);
        laws::lemma_adjacent(edges, start, ids, partition, n, outgoing, e);
        assert(entries.contains(e));
        let i = choose|i: int| 0 <= i < entries.len() && entries[i] == e;
        assert(end_of(e) == Some(far));
        assert(over_entry(entries[i], hop, b, row));
    }
}

/// A single hop from a row gives, on the partition that owns its start, the
/// rows that the edges of the graph lead to.
pub proof fn law_a_hop_follows_the_edges_of_the_graph(
    g: IndexGeneration,
    s: SchemaView,
    p: u32,
    n: u32,
    nodes: Seq<ScannedNodeView>,
    edges: Seq<ScannedEdgeView>,
    hop: ExpandHopView,
    b: BindingView,
    row: BindingView,
)
    requires
        n > 0,
        builder::indexes(g, s, PartitionId(p), n, nodes, edges),
        no_dangling(nodes, edges),
        single(hop),
        partitioning::owner(b.nodes[hop.from_alias], n) == p,
    ensures
        distributed::all_rows(local_executor::expand_row(g.topology, hop, b)).contains(row)
            <==> one_edge(edges, hop, b, row),
{
    lemma_row_entries(g.topology, hop, b, row);
    lemma_entries_are_edges(g, s, p, n, nodes, edges, hop, b, row);
}

pub proof fn lemma_expand_rows(
    t: TopologicalIndex,
    hop: ExpandHopView,
    frontier: Seq<BindingView>,
    row: BindingView,
)
    ensures
        distributed::all_rows(local_executor::expand_rows(t, hop, frontier)).contains(row)
            <==> exists|i: int|
            0 <= i < frontier.len() && distributed::all_rows(
                local_executor::expand_row(t, hop, #[trigger] frontier[i]),
            ).contains(row),
        local_executor::expand_rows(t, hop, frontier).local.contains(row) <==> exists|i: int|
            0 <= i < frontier.len() && local_executor::expand_row(
                t,
                hop,
                #[trigger] frontier[i],
            ).local.contains(row),
    decreases frontier.len(),
{
    let all = local_executor::expand_rows(t, hop, frontier);
    let beyond = Seq::new(all.remote.len(), |i: int| all.remote[i].1);
    laws::lemma_contains_add(all.local, beyond, row);
    if frontier.len() > 0 {
        let shorter = frontier.drop_last();
        lemma_expand_rows(t, hop, shorter, row);
        let rest = local_executor::expand_rows(t, hop, shorter);
        let last = local_executor::expand_row(t, hop, frontier.last());
        let rest_beyond = Seq::new(rest.remote.len(), |i: int| rest.remote[i].1);
        let last_beyond = Seq::new(last.remote.len(), |i: int| last.remote[i].1);
        laws::lemma_contains_add(rest.local, rest_beyond, row);
        laws::lemma_contains_add(last.local, last_beyond, row);
        laws::lemma_contains_add(rest.local, last.local, row);
        assert(beyond =~= rest_beyond + last_beyond);
        laws::lemma_contains_add(rest_beyond, last_beyond, row);
        assert(frontier[frontier.len() - 1] == frontier.last());
        assert forall|i: int| 0 <= i < shorter.len() implies shorter[i] == #[trigger] frontier[i] by {}
        if exists|i: int|
            0 <= i < shorter.len() && distributed::all_rows(
                local_executor::expand_row(t, hop, #[trigger] shorter[i]),
            ).contains(row) {
            let i = choose|i: int|
                0 <= i < shorter.len() && distributed::all_rows(
                    local_executor::expand_row(t, hop, #[trigger] shorter[i]),
                ).contains(row);
            assert(frontier[i] == shorter[i]);
        }
        if exists|i: int|
            0 <= i < frontier.len() && distributed::all_rows(
                local_executor::expand_row(t, hop, #[trigger] frontier[i]),
            ).contains(row) {
            let i = choose|i: int|
                0 <= i < frontier.len() && distributed::all_rows(
                    local_executor::expand_row(t, hop, #[trigger] frontier[i]),
                ).contains(row);
            if i < shorter.len() {
                assert(frontier[i] == shorter[i]);
            }
        }
        if exists|i: int|
            0 <= i < shorter.len() && local_executor::expand_row(
                t,
                hop,
                #[trigger] shorter[i],
            ).local.contains(row) {
            let i = choose|i: int|
                0 <= i < shorter.len() && local_executor::expand_row(
                    t,
                    hop,
                    #[trigger] shorter[i],
                ).local.contains(row);
            assert(frontier[i] == shorter[i]);
        }
        if exists|i: int|
            0 <= i < frontier.len() && local_executor::expand_row(
                t,
                hop,
                #[trigger] frontier[i],
            ).local.contains(row) {
            let i = choose|i: int|
                0 <= i < frontier.len() && local_executor::expand_row(
                    t,
                    hop,
                    #[trigger] frontier[i],
                ).local.contains(row);
            if i < shorter.len() {
                assert(frontier[i] == shorter[i]);
            }
        }
    }
}

pub proof fn lemma_gathered(replies: Seq<Result<Seq<BindingView>, ExecutionErrorView>>, row: BindingView)
    requires
        forall|j: int| 0 <= j < replies.len() ==> (#[trigger] replies[j]) is Ok,
    ensures
        distributed::gathered(replies) is Ok,
        (distributed::gathered(replies)->Ok_0).contains(row) <==> exists|j: int|
            0 <= j < replies.len() && ((#[trigger] replies[j])->Ok_0).contains(row),
    decreases replies.len(),
{
    if replies.len() > 0 {
        let shorter = replies.drop_last();
        assert forall|j: int| 0 <= j < shorter.len() implies (#[trigger] shorter[j]) is Ok by {
            assert(shorter[j] == replies[j]);
        }
        lemma_gathered(shorter, row);
        assert(replies[replies.len() - 1] == replies.last());
        laws::lemma_contains_add(
            distributed::gathered(shorter)->Ok_0,
            replies.last()->Ok_0,
            row,
        );
        if exists|j: int| 0 <= j < shorter.len() && ((#[trigger] shorter[j])->Ok_0).contains(row) {
            let j = choose|j: int|
                0 <= j < shorter.len() && ((#[trigger] shorter[j])->Ok_0).contains(row);
            assert(replies[j] == shorter[j]);
        }
        if exists|j: int| 0 <= j < replies.len() && ((#[trigger] replies[j])->Ok_0).contains(row) {
            let j = choose|j: int|
                0 <= j < replies.len() && ((#[trigger] replies[j])->Ok_0).contains(row);
            if j < shorter.len() {
                assert(replies[j] == shorter[j]);
            }
        }
    }
}

/// That the answers of a round are those of the indexes of the partitions
/// that the rows were sent to.
pub open spec fn answered(
    gs: Seq<IndexGeneration>,
    step: ExpandHopView,
    rows: Seq<BindingView>,
    replies: Seq<Result<FrontierView, ExecutionErrorView>>,
) -> bool {
    let owners = routing::row_owners(rows, step.from_alias, gs.len() as u32);
    let asked = routing::distinct(owners);
    &&& replies.len() == asked.len()
    &&& forall|j: int|
        0 <= j < asked.len() ==> distributed::flat(#[trigger] replies[j]) == distributed::flat(
            local_executor::expanded(
                gs[asked[j] as int],
                step,
                routing::members(rows, owners, asked[j]),
            ),
        )
}

pub proof fn lemma_members_bind(
    rows: Seq<BindingView>,
    owners: Seq<u32>,
    p: u32,
    alias: Seq<char>,
)
    requires
        rows.len() == owners.len(),
        local_executor::all_bind(rows, alias),
    ensures
        local_executor::all_bind(routing::members(rows, owners, p), alias),
{
    let group = routing::members(rows, owners, p);
    assert forall|i: int| 0 <= i < group.len() implies (#[trigger] group[i]).nodes.dom().contains(
        alias,
    ) by {
        assert(group.contains(group[i]));
        routing::lemma_members(rows, owners, p, group[i]);
        let k = choose|k: int|
            0 <= k < rows.len() && #[trigger] rows[k] == group[i] && owners[k] == p;
        assert(rows[k].nodes.dom().contains(alias));
    }
}

/// A round over all partitions gives exactly the rows that the edges of the
/// graph lead to.
pub proof fn law_a_round_follows_the_edges_of_the_graph(
    gs: Seq<IndexGeneration>,
    s: SchemaView,
    nodes: Seq<ScannedNodeView>,
    edges: Seq<ScannedEdgeView>,
    map: PartitionMap,
    step: ExpandHopView,
    rows: Seq<BindingView>,
    replies: Seq<Result<FrontierView, ExecutionErrorView>>,
    row: BindingView,
)
    requires
        divides(gs, s, nodes, edges),
        no_dangling(nodes, edges),
        single(step),
        step.filters.len() == 0,
        local_executor::all_bind(rows, step.from_alias),
        answered(gs, step, rows, replies),
    ensures
        distributed::round_outcome(
            map,
            rows,
            step.from_alias,
            gs.len() as u32,
            replies,
        ) is Ok,
        (distributed::round_outcome(
            map,
            rows,
            step.from_alias,
            gs.len() as u32,
            replies,
        )->Ok_0).contains(row) <==> exists|i: int|
            0 <= i < rows.len() && one_edge(edges, step, #[trigger] rows[i], row),
{
    let n = gs.len() as u32;
    let owners = routing::row_owners(rows, step.from_alias, n);
    let asked = routing::distinct(owners);
    let flat = distributed::flat_all(replies);
    assert forall|j: int| 0 <= j < asked.len() implies asked[j] < n
        && (#[trigger] flat[j]) == Ok::<Seq<BindingView>, ExecutionErrorView>(
        distributed::all_rows(
            local_executor::expand_rows(
                gs[asked[j] as int].topology,
                step,
                routing::members(rows, owners, asked[j]),
            ),
        ),
    ) by {
        lemma_members_bind(rows, owners, asked[j], step.from_alias);
        assert(asked.contains(asked[j]));
        routing::lemma_distinct(owners, asked[j]);
        let i = choose|i: int| 0 <= i < owners.len() && owners[i] == asked[j];
        partitioning::law_every_node_has_one_owner(rows[i].nodes[step.from_alias], n);
        assert(distributed::flat(replies[j]) == distributed::flat(
            local_executor::expanded(
                gs[asked[j] as int],
                step,
                routing::members(rows, owners, asked[j]),
            ),
        ));
    }
    assert forall|j: int| 0 <= j < flat.len() implies (#[trigger] flat[j]) is Ok by {}
    lemma_gathered(flat, row);
    let out = distributed::gathered(flat)->Ok_0;
    if out.contains(row) {
        let j = choose|j: int| 0 <= j < flat.len() && ((#[trigger] flat[j])->Ok_0).contains(row);
        let p = asked[j];
        let g = gs[p as int];
        let group = routing::members(rows, owners, p);
        lemma_expand_rows(g.topology, step, group, row);
        let k = choose|k: int|
            0 <= k < group.len() && distributed::all_rows(
                local_executor::expand_row(g.topology, step, #[trigger] group[k]),
            ).contains(row);
        assert(group.contains(group[k]));
        routing::lemma_members(rows, owners, p, group[k]);
        let i = choose|i: int|
            0 <= i < rows.len() && #[trigger] rows[i] == group[k] && owners[i] == p;
        assert(builder::indexes(g, s, PartitionId(p), n, nodes, edges));
        law_a_hop_follows_the_edges_of_the_graph(g, s, p, n, nodes, edges, step, rows[i], row);
        assert(one_edge(edges, step, rows[i], row));
    }
    if exists|i: int| 0 <= i < rows.len() && one_edge(edges, step, #[trigger] rows[i], row) {
        let i = choose|i: int|
            0 <= i < rows.len() && one_edge(edges, step, #[trigger] rows[i], row);
        let p = owners[i];
        routing::lemma_distinct(owners, p);
        assert(owners.contains(p));
        let j = choose|j: int| 0 <= j < asked.len() && asked[j] == p;
        assert(flat[j] is Ok);
        let g = gs[p as int];
        let group = routing::members(rows, owners, p);
        routing::lemma_members(rows, owners, p, rows[i]);
        assert(group.contains(rows[i]));
        let k = choose|k: int| 0 <= k < group.len() && group[k] == rows[i];
        assert(builder::indexes(g, s, PartitionId(p), n, nodes, edges));
        law_a_hop_follows_the_edges_of_the_graph(g, s, p, n, nodes, edges, step, rows[i], row);
        lemma_expand_rows(g.topology, step, group, row);
        assert(distributed::all_rows(
            local_executor::expand_row(g.topology, step, group[k]),
        ).contains(row));
        assert((flat[j]->Ok_0).contains(row));
    }
}

/// That the answers of all rounds of a hop are those of the indexes of the
/// partitions.
pub open spec fn all_answered(
    gs: Seq<IndexGeneration>,
    map: PartitionMap,
    hop: ExpandHopView,
    frontier: Seq<BindingView>,
    rounds: Seq<Seq<Result<FrontierView, ExecutionErrorView>>>,
) -> bool {
    forall|k: nat|
        #![trigger distributed::round_step(hop, k)]
        1 <= k <= hop.hops.max ==> (distributed::hop_run(
            map,
            gs.len() as u32,
            hop,
            frontier,
            rounds,
            (k - 1) as nat,
        ) matches Ok((current, _)) ==> (current.len() > 0 && local_executor::all_bind(
            current,
            distributed::cursor(hop, k),
        ) ==> answered(gs, distributed::round_step(hop, k), current, rounds[k - 1])))
}

/// Whether a walk of `k` hops on the undivided graph takes one of some rows
/// to another row.
pub open spec fn walked(
    t: TopologicalIndex,
    hop: ExpandHopView,
    frontier: Seq<BindingView>,
    row: BindingView,
    k: nat,
) -> bool {
    exists|i: int, y: NodeId|
        0 <= i < frontier.len() && #[trigger] walk::level(
            t,
            hop.direction,
            hop.edge_type,
            (#[trigger] frontier[i]).nodes[hop.from_alias],
            k,
        ).contains(y) && row == frontier[i].with_node(hop.to_alias, y)
}

/// On the undivided graph an edge leads to a node where a scanned one does.
pub proof fn lemma_edge_to_whole(
    g: IndexGeneration,
    s: SchemaView,
    nodes: Seq<ScannedNodeView>,
    edges: Seq<ScannedEdgeView>,
    step: ExpandHopView,
    b: BindingView,
    y: NodeId,
)
    requires
        holds_all(g, s, nodes, edges),
        no_dangling(nodes, edges),
        single(step),
        !local_executor::binds_edge(step),
    ensures
        walk::edge_to(
            g.topology,
            step.direction,
            step.edge_type,
            b.nodes[step.from_alias],
            y,
        ) <==> one_edge(edges, step, b, b.with_node(step.to_alias, y)),
{
    let start = b.nodes[step.from_alias];
    let row = b.with_node(step.to_alias, y);
    partitioning::law_every_node_has_one_owner(start, 1);
    lemma_entries_are_edges(g, s, 0, 1, nodes, edges, step, b, row);
    let entries = walk::entries_of(g.topology, start, step.direction);
    assert(row.nodes[step.to_alias] == y);
    assert forall|i: int| 0 <= i < entries.len() implies (#[trigger] entries[i]).dst_remote is None by {
        laws::law_one_partition_has_no_remote_references(g, s, nodes, edges, start, i);
    }
    if walk::edge_to(g.topology, step.direction, step.edge_type, start, y) {
        let i = choose|i: int|
            0 <= i < entries.len() && walk::type_fits(#[trigger] entries[i], step.edge_type)
                && entries[i].dst_local == Some(y);
        assert(over_entry(entries[i], step, b, row));
    }
    if one_edge(edges, step, b, row) {
        let i = choose|i: int|
            0 <= i < entries.len() && over_entry(#[trigger] entries[i], step, b, row);
        let z = end_of(entries[i])->Some_0;
        assert(b.with_node(step.to_alias, z).nodes[step.to_alias] == z);
        assert(walk::type_fits(entries[i], step.edge_type) && entries[i].dst_local == Some(y));
    }
}

proof fn lemma_with_node_twice(b: BindingView, alias: Seq<char>, y: NodeId, z: NodeId)
    ensures
        b.with_node(alias, y).with_node(alias, z) == b.with_node(alias, z),
        b.with_node(alias, y).nodes[alias] == y,
{
    assert(b.with_node(alias, y).with_node(alias, z).nodes =~= b.with_node(alias, z).nodes);
}

/// One more round of a hop takes the rows of a level to those of the next.
proof fn lemma_round_takes_a_level(
    g: IndexGeneration,
    s: SchemaView,
    nodes: Seq<ScannedNodeView>,
    edges: Seq<ScannedEdgeView>,
    hop: ExpandHopView,
    frontier: Seq<BindingView>,
    current: Seq<BindingView>,
    m: nat,
    k: nat,
    row: BindingView,
)
    requires
        holds_all(g, s, nodes, edges),
        no_dangling(nodes, edges),
        !local_executor::binds_edge(hop),
        k == m + 1,
        m == 0 ==> current == frontier,
        m > 0 ==> forall|x: BindingView| #[trigger]
            current.contains(x) <==> walked(g.topology, hop, frontier, x, m),
    ensures
        (exists|i: int|
            0 <= i < current.len() && one_edge(
                edges,
                distributed::round_step(hop, k),
                #[trigger] current[i],
                row,
            )) <==> walked(g.topology, hop, frontier, row, k),
{
    let step = distributed::round_step(hop, k);
    let t = g.topology;
    if exists|i: int| 0 <= i < current.len() && one_edge(edges, step, #[trigger] current[i], row) {
        let i = choose|i: int|
            0 <= i < current.len() && one_edge(edges, step, #[trigger] current[i], row);
        let c = current[i];
        let e = choose|e: int| 0 <= e < edges.len() && over_edge(#[trigger] edges[e], step, c, row);
        let y = builder::far_end(edges[e].row, is_outgoing(hop.direction));
        assert(row == c.with_node(hop.to_alias, y));
        lemma_edge_to_whole(g, s, nodes, edges, step, c, y);
        if k == 1 {
            let start = c.nodes[hop.from_alias];
            let first = walk::level(t, hop.direction, hop.edge_type, start, 0);
            assert(first[0] == start);
            walk::lemma_next_level(t, hop.direction, hop.edge_type, first, y);
            assert(first.contains(start) && walk::edge_to(
                t,
                hop.direction,
                hop.edge_type,
                start,
                y,
            ));
            assert(walk::level(t, hop.direction, hop.edge_type, start, k).contains(y));
            assert(frontier[i] == c);
            assert(walked(t, hop, frontier, row, k));
        } else {
            assert(current.contains(c));
            let (j, z) = choose|j: int, z: NodeId|
                0 <= j < frontier.len() && #[trigger] walk::level(
                    t,
                    hop.direction,
                    hop.edge_type,
                    (#[trigger] frontier[j]).nodes[hop.from_alias],
                    m,
                ).contains(z) && c == frontier[j].with_node(hop.to_alias, z);
            lemma_with_node_twice(frontier[j], hop.to_alias, z, y);
            let start = frontier[j].nodes[hop.from_alias];
            let before = walk::level(t, hop.direction, hop.edge_type, start, m);
            walk::lemma_next_level(t, hop.direction, hop.edge_type, before, y);
            assert(before.contains(z) && walk::edge_to(t, hop.direction, hop.edge_type, z, y));
            assert(walk::level(t, hop.direction, hop.edge_type, start, k).contains(y));
            assert(row == frontier[j].with_node(hop.to_alias, y));
            assert(walked(t, hop, frontier, row, k));
        }
    }
    if walked(t, hop, frontier, row, k) {
        let (j, y) = choose|j: int, y: NodeId|
            0 <= j < frontier.len() && #[trigger] walk::level(
                t,
                hop.direction,
                hop.edge_type,
                (#[trigger] frontier[j]).nodes[hop.from_alias],
                k,
            ).contains(y) && row == frontier[j].with_node(hop.to_alias, y);
        let b = frontier[j];
        let start = b.nodes[hop.from_alias];
        let before = walk::level(t, hop.direction, hop.edge_type, start, m);
        walk::lemma_next_level(t, hop.direction, hop.edge_type, before, y);
        let z = choose|z: NodeId|
            before.contains(z) && #[trigger] walk::edge_to(t, hop.direction, hop.edge_type, z, y);
        if k == 1 {
            assert(before =~= seq![start]);
            assert(z == start);
            lemma_edge_to_whole(g, s, nodes, edges, step, b, y);
            assert(one_edge(edges, step, current[j], row));
        } else {
            let c = b.with_node(hop.to_alias, z);
            assert(walked(t, hop, frontier, c, m));
            assert(current.contains(c));
            let i = choose|i: int| 0 <= i < current.len() && current[i] == c;
            lemma_with_node_twice(b, hop.to_alias, z, y);
            lemma_edge_to_whole(g, s, nodes, edges, step, c, y);
            assert(one_edge(edges, step, current[i], row));
        }
    }
}

proof fn lemma_no_rows_no_walks(
    t: TopologicalIndex,
    hop: ExpandHopView,
    frontier: Seq<BindingView>,
    m: nat,
    k: nat,
)
    requires
        k == m + 1,
        m == 0 ==> frontier.len() == 0,
        m > 0 ==> forall|x: BindingView| !walked(t, hop, frontier, x, m),
    ensures
        forall|x: BindingView| !walked(t, hop, frontier, x, k),
{
    assert forall|x: BindingView| !walked(t, hop, frontier, x, k) by {
        if walked(t, hop, frontier, x, k) {
            let (j, y) = choose|j: int, y: NodeId|
                0 <= j < frontier.len() && #[trigger] walk::level(
                    t,
                    hop.direction,
                    hop.edge_type,
                    (#[trigger] frontier[j]).nodes[hop.from_alias],
                    k,
                ).contains(y) && x == frontier[j].with_node(hop.to_alias, y);
            let start = frontier[j].nodes[hop.from_alias];
            let before = walk::level(t, hop.direction, hop.edge_type, start, m);
            walk::lemma_next_level(t, hop.direction, hop.edge_type, before, y);
            let z = choose|z: NodeId|
                before.contains(z) && #[trigger] walk::edge_to(
                    t,
                    hop.direction,
                    hop.edge_type,
                    z,
                    y,
                );
            assert(walk::level(t, hop.direction, hop.edge_type, start, m).contains(z));
            assert(walked(t, hop, frontier, frontier[j].with_node(hop.to_alias, z), m));
        }
    }
}

/// After `k` rounds the rows are those of the walks of `k` hops, and the
/// accepted ones those of the walks in the range.
proof fn lemma_rounds_are_walks(
    g: IndexGeneration,
    gs: Seq<IndexGeneration>,
    s: SchemaView,
    nodes: Seq<ScannedNodeView>,
    edges: Seq<ScannedEdgeView>,
    map: PartitionMap,
    hop: ExpandHopView,
    frontier: Seq<BindingView>,
    rounds: Seq<Seq<Result<FrontierView, ExecutionErrorView>>>,
    k: nat,
)
    requires
        holds_all(g, s, nodes, edges),
        divides(gs, s, nodes, edges),
        no_dangling(nodes, edges),
        !local_executor::binds_edge(hop),
        local_executor::all_bind(frontier, hop.from_alias),
        all_answered(gs, map, hop, frontier, rounds),
        k <= hop.hops.max,
    ensures
        distributed::hop_run(map, gs.len() as u32, hop, frontier, rounds, k) is Ok,
        k == 0 ==> (distributed::hop_run(
            map,
            gs.len() as u32,
            hop,
            frontier,
            rounds,
            k,
        )->Ok_0).0 == frontier,
        k >= 1 ==> forall|row: BindingView| #[trigger]
            (distributed::hop_run(
                map,
                gs.len() as u32,
                hop,
                frontier,
                rounds,
                k,
            )->Ok_0).0.contains(row) <==> walked(g.topology, hop, frontier, row, k),
        forall|row: BindingView| #[trigger]
            (distributed::hop_run(
                map,
                gs.len() as u32,
                hop,
                frontier,
                rounds,
                k,
            )->Ok_0).1.contains(row) <==> exists|j: nat|
                1 <= j <= k && hop.hops.min <= j && #[trigger] walked(
                    g.topology,
                    hop,
                    frontier,
                    row,
                    j,
                ),
    decreases k,
{
    let n = gs.len() as u32;
    let t = g.topology;
    let run = distributed::hop_run(map, n, hop, frontier, rounds, k);
    if k > 0 {
        let m = (k - 1) as nat;
        lemma_rounds_are_walks(g, gs, s, nodes, edges, map, hop, frontier, rounds, m);
        let (current, accepted) = distributed::hop_run(map, n, hop, frontier, rounds, m)->Ok_0;
        let step = distributed::round_step(hop, k);
        if current.len() == 0 {
            if k > 1 {
                assert forall|x: BindingView| !walked(t, hop, frontier, x, m) by {
                    assert(!current.contains(x));
                }
            }
            lemma_no_rows_no_walks(t, hop, frontier, m, k);
            let (next, kept) = run->Ok_0;
            assert(next == current && kept == accepted);
            assert forall|row: BindingView| #[trigger] next.contains(row) <==> walked(
                t,
                hop,
                frontier,
                row,
                k,
            ) by {}
            assert forall|row: BindingView| #[trigger] kept.contains(row) <==> exists|j: nat|
                1 <= j <= k && hop.hops.min <= j && #[trigger] walked(t, hop, frontier, row, j) by {
                if exists|j: nat|
                    1 <= j <= k && hop.hops.min <= j && #[trigger] walked(
                        t,
                        hop,
                        frontier,
                        row,
                        j,
                    ) {
                    let j = choose|j: nat|
                        1 <= j <= k && hop.hops.min <= j && #[trigger] walked(
                            t,
                            hop,
                            frontier,
                            row,
                            j,
                        );
                    assert(j < k);
                    assert(walked(t, hop, frontier, row, j) && j <= m);
                }
                assert(accepted.contains(row) <==> kept.contains(row));
            }
        } else {
            assert(local_executor::all_bind(current, step.from_alias)) by {
                if k > 1 {
                    assert forall|i: int| 0 <= i < current.len() implies (
                    #[trigger] current[i]).nodes.dom().contains(step.from_alias) by {
                        assert(current.contains(current[i]));
                        let (j, z) = choose|j: int, z: NodeId|
                            0 <= j < frontier.len() && #[trigger] walk::level(
                                t,
                                hop.direction,
                                hop.edge_type,
                                (#[trigger] frontier[j]).nodes[hop.from_alias],
                                m,
                            ).contains(z) && current[i] == frontier[j].with_node(hop.to_alias, z);
                    }
                }
            }
            assert(answered(gs, step, current, rounds[k - 1]));
            let outcome = distributed::round_outcome(
                map,
                current,
                step.from_alias,
                n,
                rounds[k - 1],
            );
            assert forall|row: BindingView| outcome is Ok && (#[trigger] (outcome->Ok_0).contains(
                row,
            ) <==> walked(t, hop, frontier, row, k)) by {
                law_a_round_follows_the_edges_of_the_graph(
                    gs,
                    s,
                    nodes,
                    edges,
                    map,
                    step,
                    current,
                    rounds[k - 1],
                    row,
                );
                lemma_round_takes_a_level(
                    g,
                    s,
                    nodes,
                    edges,
                    hop,
                    frontier,
                    current,
                    m,
                    k,
                    row,
                );
            }
            law_a_round_follows_the_edges_of_the_graph(
                gs,
                s,
                nodes,
                edges,
                map,
                step,
                current,
                rounds[k - 1],
                current[0],
            );
            let next = outcome->Ok_0;
            let kept = (run->Ok_0).1;
            assert((run->Ok_0).0 == next);
            assert forall|row: BindingView| #[trigger] kept.contains(row) <==> exists|j: nat|
                1 <= j <= k && hop.hops.min <= j && #[trigger] walked(t, hop, frontier, row, j) by {
                walk::lemma_union_new(accepted, next, row);
                assert(next.contains(row) <==> walked(t, hop, frontier, row, k));
                assert(accepted.contains(row) <==> exists|j: nat|
                    1 <= j <= m && hop.hops.min <= j && #[trigger] walked(
                        t,
                        hop,
                        frontier,
                        row,
                        j,
                    ));
                if exists|j: nat|
                    1 <= j <= k && hop.hops.min <= j && #[trigger] walked(
                        t,
                        hop,
                        frontier,
                        row,
                        j,
                    ) {
                    let j = choose|j: nat|
                        1 <= j <= k && hop.hops.min <= j && #[trigger] walked(
                            t,
                            hop,
                            frontier,
                            row,
                            j,
                        );
                    if j < k {
                        assert(walked(t, hop, frontier, row, j) && j <= m);
                    }
                }
                if accepted.contains(row) {
                    let j = choose|j: nat|
                        1 <= j <= m && hop.hops.min <= j && #[trigger] walked(
                            t,
                            hop,
                            frontier,
                            row,
                            j,
                        );
                    assert(walked(t, hop, frontier, row, j) && j <= k);
                }
            }
        }
    }
}

/// The rows of a hop on the undivided graph are those of the walks in its
/// range.
proof fn lemma_whole_rows_are_walks(
    t: TopologicalIndex,
    hop: ExpandHopView,
    frontier: Seq<BindingView>,
    row: BindingView,
)
    requires
        !local_executor::binds_edge(hop),
    ensures
        local_executor::expand_rows(t, hop, frontier).local.contains(row) <==> exists|j: nat|
            1 <= j <= hop.hops.max && hop.hops.min <= j && #[trigger] walked(
                t,
                hop,
                frontier,
                row,
                j,
            ),
{
    let min = hop.hops.min as nat;
    let max = hop.hops.max as nat;
    lemma_expand_rows(t, hop, frontier, row);
    if local_executor::expand_rows(t, hop, frontier).local.contains(row) {
        let i = choose|i: int|
            0 <= i < frontier.len() && local_executor::expand_row(
                t,
                hop,
                #[trigger] frontier[i],
            ).local.contains(row);
        let b = frontier[i];
        let start = b.nodes[hop.from_alias];
        let hits = walk::hits_within(t, hop.direction, hop.edge_type, start, min, max);
        let rows = local_executor::rows_to(b, hop.to_alias, hits);
        let x = choose|x: int| 0 <= x < rows.len() && rows[x] == row;
        let y = hits[x];
        assert(hits.contains(y));
        walk::law_hits_are_the_ends_of_walks(
            t,
            hop.direction,
            hop.edge_type,
            start,
            min,
            max,
            y,
        );
        let j = choose|j: nat|
            1 <= j <= max && min <= j && #[trigger] walk::walks(
                t,
                hop.direction,
                hop.edge_type,
                start,
                y,
                j,
            );
        walk::law_levels_hold_what_walks_reach(t, hop.direction, hop.edge_type, start, y, j);
        assert(walk::level(
            t,
            hop.direction,
            hop.edge_type,
            frontier[i].nodes[hop.from_alias],
            j,
        ).contains(y));
        assert(walked(t, hop, frontier, row, j));
    }
    if exists|j: nat|
        1 <= j <= hop.hops.max && hop.hops.min <= j && #[trigger] walked(
            t,
            hop,
            frontier,
            row,
            j,
        ) {
        let j = choose|j: nat|
            1 <= j <= hop.hops.max && hop.hops.min <= j && #[trigger] walked(
                t,
                hop,
                frontier,
                row,
                j,
            );
        let (i, y) = choose|i: int, y: NodeId|
            0 <= i < frontier.len() && #[trigger] walk::level(
                t,
                hop.direction,
                hop.edge_type,
                (#[trigger] frontier[i]).nodes[hop.from_alias],
                j,
            ).contains(y) && row == frontier[i].with_node(hop.to_alias, y);
        let b = frontier[i];
        let start = b.nodes[hop.from_alias];
        walk::law_levels_hold_what_walks_reach(t, hop.direction, hop.edge_type, start, y, j);
        walk::law_hits_are_the_ends_of_walks(
            t,
            hop.direction,
            hop.edge_type,
            start,
            min,
            max,
            y,
        );
        let hits = walk::hits_within(t, hop.direction, hop.edge_type, start, min, max);
        let x = choose|x: int| 0 <= x < hits.len() && hits[x] == y;
        let rows = local_executor::rows_to(b, hop.to_alias, hits);
        assert(rows[x] == row);
        assert(local_executor::expand_row(t, hop, frontier[i]).local.contains(row));
    }
}

/// Without remote references no row of a single hop goes on elsewhere.
pub proof fn lemma_no_remote_rows(
    hop: ExpandHopView,
    b: BindingView,
    entries: Seq<AdjacencyEntryView>,
)
    requires
        forall|i: int| 0 <= i < entries.len() ==> (#[trigger] entries[i]).dst_remote is None,
    ensures
        local_executor::edge_rows_beyond(b, hop, entries).len() == 0,
    decreases entries.len(),
{
    if entries.len() > 0 {
        let shorter = entries.drop_last();
        assert forall|i: int| 0 <= i < shorter.len() implies (
        #[trigger] shorter[i]).dst_remote is None by {
            assert(shorter[i] == entries[i]);
        }
        lemma_no_remote_rows(hop, b, shorter);
        assert(entries[entries.len() - 1].dst_remote is None);
    }
}

/// A hop gives the same rows on a divided graph as on the undivided one, as
/// long as all partitions answer from their indexes.
pub proof fn law_a_hop_is_the_same_divided_or_not(
    g: IndexGeneration,
    gs: Seq<IndexGeneration>,
    s: SchemaView,
    nodes: Seq<ScannedNodeView>,
    edges: Seq<ScannedEdgeView>,
    map: PartitionMap,
    hop: ExpandHopView,
    frontier: Seq<BindingView>,
    rounds: Seq<Seq<Result<FrontierView, ExecutionErrorView>>>,
    row: BindingView,
)
    requires
        holds_all(g, s, nodes, edges),
        divides(gs, s, nodes, edges),
        no_dangling(nodes, edges),
        local_executor::all_bind(frontier, hop.from_alias),
        all_answered(gs, map, hop, frontier, rounds),
    ensures
        distributed::hop_outcome(map, gs.len() as u32, hop, frontier, rounds) is Ok,
        (distributed::hop_outcome(
            map,
            gs.len() as u32,
            hop,
            frontier,
            rounds,
        )->Ok_0).contains(row) <==> local_executor::expand_rows(
            g.topology,
            hop,
            frontier,
        ).local.contains(row),
{
    let n = gs.len() as u32;
    let t = g.topology;
    let max = hop.hops.max as nat;
    if !local_executor::binds_edge(hop) {
        lemma_rounds_are_walks(g, gs, s, nodes, edges, map, hop, frontier, rounds, max);
        lemma_whole_rows_are_walks(t, hop, frontier, row);
        let kept = (distributed::hop_run(map, n, hop, frontier, rounds, max)->Ok_0).1;
        assert(kept.contains(row) <==> exists|j: nat|
            1 <= j <= max && hop.hops.min <= j && #[trigger] walked(t, hop, frontier, row, j));
    } else {
        let step = distributed::round_step(hop, 1);
        reveal_with_fuel(distributed::hop_run, 2);
        lemma_expand_rows(t, hop, frontier, row);
        assert(distributed::hop_run(map, n, hop, frontier, rounds, 0) == Ok::<
            (Seq<BindingView>, Seq<BindingView>),
            ExecutionErrorView,
        >((frontier, seq![])));
        assert forall|i: int| 0 <= i < frontier.len() implies (local_executor::expand_row(
            t,
            hop,
            #[trigger] frontier[i],
        ).local.contains(row) <==> one_edge(edges, step, frontier[i], row)) by {
            let b = frontier[i];
            let start = b.nodes[hop.from_alias];
            partitioning::law_every_node_has_one_owner(start, 1);
            law_a_hop_follows_the_edges_of_the_graph(
                g,
                s,
                0,
                1,
                nodes,
                edges,
                hop,
                b,
                row,
            );
            let entries = walk::entries_of(t, start, hop.direction);
            assert forall|k: int| 0 <= k < entries.len() implies (
            #[trigger] entries[k]).dst_remote is None by {
                laws::law_one_partition_has_no_remote_references(g, s, nodes, edges, start, k);
            }
            lemma_no_remote_rows(hop, b, entries);
            let f = local_executor::expand_row(t, hop, b);
            assert(distributed::all_rows(f) =~= f.local);
            assert forall|e: ScannedEdgeView| over_edge(e, hop, b, row) == #[trigger] over_edge(
                e,
                step,
                b,
                row,
            ) by {}
            if one_edge(edges, hop, b, row) {
                let k = choose|k: int|
                    0 <= k < edges.len() && over_edge(#[trigger] edges[k], hop, b, row);
                assert(over_edge(edges[k], step, b, row));
            }
            if one_edge(edges, step, b, row) {
                let k = choose|k: int|
                    0 <= k < edges.len() && over_edge(#[trigger] edges[k], step, b, row);
                assert(over_edge(edges[k], hop, b, row));
            }
        }
        if frontier.len() > 0 {
            assert(answered(gs, step, frontier, rounds[0]));
            law_a_round_follows_the_edges_of_the_graph(
                gs,
                s,
                nodes,
                edges,
                map,
                step,
                frontier,
                rounds[0],
                row,
            );
            let next = distributed::round_outcome(
                map,
                frontier,
                step.from_alias,
                n,
                rounds[0],
            )->Ok_0;
            walk::lemma_union_new(Seq::<BindingView>::empty(), next, row);
            assert(!Seq::<BindingView>::empty().contains(row));
            let out = distributed::hop_outcome(map, n, hop, frontier, rounds)->Ok_0;
            assert(out == walk::union_new(Seq::<BindingView>::empty(), next));
            if next.contains(row) {
                let i = choose|i: int|
                    0 <= i < frontier.len() && one_edge(edges, step, #[trigger] frontier[i], row);
                assert(local_executor::expand_row(t, hop, frontier[i]).local.contains(row));
            }
            if local_executor::expand_rows(t, hop, frontier).local.contains(row) {
                let i = choose|i: int|
                    0 <= i < frontier.len() && local_executor::expand_row(
                        t,
                        hop,
                        #[trigger] frontier[i],
                    ).local.contains(row);
                assert(one_edge(edges, step, frontier[i], row));
            }
        } else {
            assert(distributed::hop_outcome(map, n, hop, frontier, rounds)->Ok_0 =~= Seq::<
                BindingView,
            >::empty());
        }
    }
}

/// What the whole graph has under a key is what the partitions have together.
proof fn lemma_lookup_is_divided(
    g: IndexGeneration,
    gs: Seq<IndexGeneration>,
    s: SchemaView,
    nodes: Seq<ScannedNodeView>,
    edges: Seq<ScannedEdgeView>,
    label: Seq<char>,
    property: Seq<char>,
    key: PropertyKeyView,
    id: NodeId,
)
    requires
        holds_all(g, s, nodes, edges),
        divides(gs, s, nodes, edges),
    ensures
        partitioning::owner(id, gs.len() as u32) < gs.len(),
        index::ids_at(g.properties.tree(label, property), key).contains(id) <==> index::ids_at(
            gs[partitioning::owner(id, gs.len() as u32) as int].properties.tree(label, property),
            key,
        ).contains(id),
        forall|p: int|
            0 <= p < gs.len() && p != partitioning::owner(id, gs.len() as u32)
                ==> !index::ids_at(
                (#[trigger] gs[p]).properties.tree(label, property),
                key,
            ).contains(id),
{
    let n = gs.len() as u32;
    let posting = builder::Posting { label, property, key, id };
    partitioning::law_every_node_has_one_owner(id, n);
    partitioning::law_every_node_has_one_owner(id, 1);
    let whole = builder::postings(builder::owned_nodes(nodes, PartitionId(0), 1), s);
    laws::law_postings_are_divided_by_owner(nodes, s, PartitionId(0), 1, posting);
    laws::law_a_tree_holds_what_was_posted(whole, label, property, key, id);
    assert(g.properties.tree(label, property) == builder::tree_of(whole, label, property));
    laws::law_equality_finds_what_is_under_the_key(
        g.properties.tree(label, property),
        key,
        id,
    );
    assert forall|p: int| 0 <= p < gs.len() implies (index::ids_at(
        (#[trigger] gs[p]).properties.tree(label, property),
        key,
    ).contains(id) <==> builder::postings(nodes, s).contains(posting) && partitioning::owner(
        id,
        n,
    ) == p) by {
        let part = builder::postings(
            builder::owned_nodes(nodes, PartitionId(p as u32), n),
            s,
        );
        assert(builder::indexes(gs[p], s, PartitionId(p as u32), n, nodes, edges));
        assert(gs[p].properties.tree(label, property) == builder::tree_of(
            part,
            label,
            property,
        ));
        laws::law_postings_are_divided_by_owner(nodes, s, PartitionId(p as u32), n, posting);
        laws::law_a_tree_holds_what_was_posted(part, label, property, key, id);
        laws::law_equality_finds_what_is_under_the_key(
            gs[p].properties.tree(label, property),
            key,
            id,
        );
    }
}

pub proof fn lemma_bind_all(alias: Seq<char>, ids: Seq<NodeId>, row: BindingView)
    ensures
        local_executor::bind_all(alias, ids).contains(row) <==> exists|id: NodeId|
            ids.contains(id) && row == #[trigger] BindingView::of_node(alias, id),
{
    let rows = local_executor::bind_all(alias, ids);
    if rows.contains(row) {
        let i = choose|i: int| 0 <= i < rows.len() && rows[i] == row;
        assert(ids.contains(ids[i]));
        assert(row == BindingView::of_node(alias, ids[i]));
    }
    if exists|id: NodeId| ids.contains(id) && row == #[trigger] BindingView::of_node(alias, id) {
        let id = choose|id: NodeId|
            ids.contains(id) && row == #[trigger] BindingView::of_node(alias, id);
        let i = choose|i: int| 0 <= i < ids.len() && ids[i] == id;
        assert(rows[i] == row);
    }
}

/// That an order of partitions has all of them.
pub open spec fn covers(order: Seq<u64>, gs: Seq<IndexGeneration>) -> bool {
    forall|p: u64| #[trigger] order.contains(p) <==> p < gs.len()
}

/// The nodes that a start finds.
pub open spec fn start_ids(tree: Seq<KeyEntryView>, key: PropertyKeyView) -> Seq<NodeId> {
    lookup::ids_equal_to(tree, key, lookup::key_instant(key))
}

/// What a start finds is what is under its key and what is under the instant
/// that the key names.
pub proof fn lemma_start_ids(tree: Seq<KeyEntryView>, key: PropertyKeyView, id: NodeId)
    ensures
        start_ids(tree, key).contains(id) <==> index::ids_at(tree, key).contains(id) || (
        lookup::instant_key(key, lookup::key_instant(key)) matches Some(k) && index::ids_at(
            tree,
            k,
        ).contains(id)),
{
    match lookup::instant_key(key, lookup::key_instant(key)) {
        Some(k) => laws::lemma_contains_add(index::ids_at(tree, key), index::ids_at(tree, k), id),
        None => {
            assert(start_ids(tree, key) =~= index::ids_at(tree, key));
        },
    }
}

/// What a start finds in the whole graph is what it finds in the partitions
/// together.
proof fn lemma_start_is_divided(
    g: IndexGeneration,
    gs: Seq<IndexGeneration>,
    s: SchemaView,
    nodes: Seq<ScannedNodeView>,
    edges: Seq<ScannedEdgeView>,
    label: Seq<char>,
    property: Seq<char>,
    key: PropertyKeyView,
    id: NodeId,
)
    requires
        holds_all(g, s, nodes, edges),
        divides(gs, s, nodes, edges),
    ensures
        partitioning::owner(id, gs.len() as u32) < gs.len(),
        start_ids(g.properties.tree(label, property), key).contains(id) <==> start_ids(
            gs[partitioning::owner(id, gs.len() as u32) as int].properties.tree(label, property),
            key,
        ).contains(id),
        forall|p: int|
            0 <= p < gs.len() && p != partitioning::owner(id, gs.len() as u32) ==> !start_ids(
                (#[trigger] gs[p]).properties.tree(label, property),
                key,
            ).contains(id),
{
    let at = partitioning::owner(id, gs.len() as u32) as int;
    lemma_lookup_is_divided(g, gs, s, nodes, edges, label, property, key, id);
    if let Some(k) = lookup::instant_key(key, lookup::key_instant(key)) {
        lemma_lookup_is_divided(g, gs, s, nodes, edges, label, property, k, id);
    }
    lemma_start_ids(g.properties.tree(label, property), key, id);
    lemma_start_ids(gs[at].properties.tree(label, property), key, id);
    assert forall|p: int| 0 <= p < gs.len() && p != at implies !start_ids(
        (#[trigger] gs[p]).properties.tree(label, property),
        key,
    ).contains(id) by {
        lemma_start_ids(gs[p].properties.tree(label, property), key, id);
    }
}

/// A start that is asked of every partition, in any order, gives the same
/// rows as on the undivided graph.
pub proof fn law_a_start_is_the_same_divided_or_not(
    g: IndexGeneration,
    gs: Seq<IndexGeneration>,
    s: SchemaView,
    nodes: Seq<ScannedNodeView>,
    edges: Seq<ScannedEdgeView>,
    step: PlanStepView,
    order: Seq<u64>,
    replies: Seq<Result<Seq<BindingView>, ExecutionErrorView>>,
    row: BindingView,
)
    requires
        holds_all(g, s, nodes, edges),
        divides(gs, s, nodes, edges),
        step is ResolveStart,
        covers(order, gs),
        replies.len() == order.len(),
        forall|i: int|
            0 <= i < order.len() ==> #[trigger] replies[i] == local_executor::resolved_start(
                gs[order[i] as int],
                step,
            ),
    ensures
        distributed::start_outcome(replies) is Ok,
        (distributed::start_outcome(replies)->Ok_0).contains(row) <==> (
        local_executor::resolved_start(g, step)->Ok_0).contains(row),
{
    let n = gs.len() as u32;
    if let PlanStepView::ResolveStart { alias, label_or_type, property, key } = step {
        assert forall|j: int| 0 <= j < replies.len() implies (#[trigger] replies[j]) is Ok by {}
        lemma_gathered(replies, row);
        let rows = distributed::gathered(replies)->Ok_0;
        routing::lemma_distinct(rows, row);
        let whole = start_ids(g.properties.tree(label_or_type, property), key);
        lemma_bind_all(alias, whole, row);
        if rows.contains(row) {
            let i = choose|i: int|
                0 <= i < replies.len() && ((#[trigger] replies[i])->Ok_0).contains(row);
            assert(order.contains(order[i]));
            let p = order[i] as int;
            let part = start_ids(gs[p].properties.tree(label_or_type, property), key);
            lemma_bind_all(alias, part, row);
            let id = choose|id: NodeId|
                part.contains(id) && row == #[trigger] BindingView::of_node(alias, id);
            lemma_start_is_divided(
                g,
                gs,
                s,
                nodes,
                edges,
                label_or_type,
                property,
                key,
                id,
            );
            assert(whole.contains(id));
        }
        if local_executor::bind_all(alias, whole).contains(row) {
            let id = choose|id: NodeId|
                whole.contains(id) && row == #[trigger] BindingView::of_node(alias, id);
            lemma_start_is_divided(
                g,
                gs,
                s,
                nodes,
                edges,
                label_or_type,
                property,
                key,
                id,
            );
            let p = partitioning::owner(id, n) as int;
            let part = start_ids(gs[p].properties.tree(label_or_type, property), key);
            lemma_bind_all(alias, part, row);
            assert(order.contains(p as u64));
            let i = choose|i: int| 0 <= i < order.len() && order[i] == p as u64;
            assert((replies[i]->Ok_0).contains(row));
        }
    }
}

/// The record of a node is the same divided or not.
pub proof fn lemma_node_record_is_divided(
    nodes: Seq<ScannedNodeView>,
    p: u32,
    n: u32,
    id: u64,
)
    ensures
        builder::node_record_map(builder::owned_nodes(nodes, PartitionId(p), n)).dom().contains(
            id,
        ) <==> builder::node_record_map(nodes).dom().contains(id) && partitioning::owner(
            NodeId(id),
            n,
        ) == p,
        builder::node_record_map(builder::owned_nodes(nodes, PartitionId(p), n)).dom().contains(
            id,
        ) ==> builder::node_record_map(builder::owned_nodes(nodes, PartitionId(p), n))[id]
            == builder::node_record_map(nodes)[id],
    decreases nodes.len(),
{
    if nodes.len() > 0 {
        let shorter = nodes.drop_last();
        lemma_node_record_is_divided(shorter, p, n, id);
        let x = nodes.last();
        if partitioning::owner(x.row.id, n) == p {
            let all = builder::owned_nodes(nodes, PartitionId(p), n);
            assert(all.drop_last() =~= builder::owned_nodes(shorter, PartitionId(p), n));
            assert(all.last() == x);
        }
        assert(NodeId(x.row.id.0) == x.row.id);
    }
}

/// The nodes of a label are those whose record has it.
proof fn lemma_labelled(
    ids: Seq<u64>,
    records: Map<u64, crate::index::NodeRecord>,
    label: Seq<char>,
    id: NodeId,
)
    ensures
        local_executor::labelled(ids, records, label).contains(id) <==> ids.contains(id.0)
            && records.dom().contains(id.0) && records[id.0]@.label == label,
    decreases ids.len(),
{
    if ids.len() > 0 {
        let shorter = ids.drop_last();
        lemma_labelled(shorter, records, label, id);
        assert(ids =~= shorter.push(ids.last()));
        laws::lemma_contains_push(shorter, ids.last(), id.0);
        laws::lemma_contains_push(
            local_executor::labelled(shorter, records, label),
            NodeId(ids.last()),
            id,
        );
    }
}

/// A node is among those of a label where its record says so.
pub proof fn lemma_resolved_by_record(
    g: IndexGeneration,
    s: SchemaView,
    p: u32,
    n: u32,
    nodes: Seq<ScannedNodeView>,
    edges: Seq<ScannedEdgeView>,
    label: Seq<char>,
    id: NodeId,
)
    requires
        builder::indexes(g, s, PartitionId(p), n, nodes, edges),
    ensures
        local_executor::labelled(
            g.node_records.order(),
            g.node_records.map(),
            label,
        ).contains(id) <==> builder::node_record_map(nodes).dom().contains(id.0)
            && partitioning::owner(id, n) == p && builder::node_record_map(nodes)[id.0].label
            == label,
{
    lemma_labelled(g.node_records.order(), g.node_records.map(), label, id);
    g.node_records.lemma_order();
    lemma_node_record_is_divided(nodes, p, n, id.0);
    let views = builder::node_record_views(g.node_records.map());
    assert(views.dom() =~= g.node_records.map().dom());
    assert(NodeId(id.0) == id);
    if g.node_records.map().dom().contains(id.0) {
        assert(views[id.0] == g.node_records.map()[id.0]@);
    }
}

/// A start by label that is asked of every partition, in any order, gives the
/// same rows as on the undivided graph.
pub proof fn law_a_label_is_the_same_divided_or_not(
    g: IndexGeneration,
    gs: Seq<IndexGeneration>,
    s: SchemaView,
    nodes: Seq<ScannedNodeView>,
    edges: Seq<ScannedEdgeView>,
    step: PlanStepView,
    order: Seq<u64>,
    replies: Seq<Result<Seq<BindingView>, ExecutionErrorView>>,
    row: BindingView,
)
    requires
        holds_all(g, s, nodes, edges),
        divides(gs, s, nodes, edges),
        step is ResolveAll,
        covers(order, gs),
        replies.len() == order.len(),
        forall|i: int|
            0 <= i < order.len() ==> #[trigger] replies[i] == local_executor::resolved_all(
                gs[order[i] as int],
                step,
            ),
    ensures
        distributed::start_outcome(replies) is Ok,
        (distributed::start_outcome(replies)->Ok_0).contains(row) <==> (
        local_executor::resolved_all(g, step)->Ok_0).contains(row),
{
    let n = gs.len() as u32;
    if let PlanStepView::ResolveAll { alias, label } = step {
        assert forall|j: int| 0 <= j < replies.len() implies (#[trigger] replies[j]) is Ok by {}
        lemma_gathered(replies, row);
        let rows = distributed::gathered(replies)->Ok_0;
        routing::lemma_distinct(rows, row);
        let whole = local_executor::labelled(
            g.node_records.order(),
            g.node_records.map(),
            label,
        );
        lemma_bind_all(alias, whole, row);
        if rows.contains(row) {
            let i = choose|i: int|
                0 <= i < replies.len() && ((#[trigger] replies[i])->Ok_0).contains(row);
            assert(order.contains(order[i]));
            let p = order[i] as int;
            let part = local_executor::labelled(
                gs[p].node_records.order(),
                gs[p].node_records.map(),
                label,
            );
            lemma_bind_all(alias, part, row);
            let id = choose|id: NodeId|
                part.contains(id) && row == #[trigger] BindingView::of_node(alias, id);
            assert(builder::indexes(gs[p], s, PartitionId(p as u32), n, nodes, edges));
            lemma_resolved_by_record(gs[p], s, p as u32, n, nodes, edges, label, id);
            lemma_resolved_by_record(g, s, 0, 1, nodes, edges, label, id);
            partitioning::law_every_node_has_one_owner(id, 1);
            assert(whole.contains(id));
        }
        if local_executor::bind_all(alias, whole).contains(row) {
            let id = choose|id: NodeId|
                whole.contains(id) && row == #[trigger] BindingView::of_node(alias, id);
            partitioning::law_every_node_has_one_owner(id, n);
            let p = partitioning::owner(id, n) as int;
            assert(builder::indexes(gs[p], s, PartitionId(p as u32), n, nodes, edges));
            lemma_resolved_by_record(gs[p], s, p as u32, n, nodes, edges, label, id);
            lemma_resolved_by_record(g, s, 0, 1, nodes, edges, label, id);
            let part = local_executor::labelled(
                gs[p].node_records.order(),
                gs[p].node_records.map(),
                label,
            );
            lemma_bind_all(alias, part, row);
            assert(order.contains(p as u64));
            let i = choose|i: int| 0 <= i < order.len() && order[i] == p as u64;
            assert((replies[i]->Ok_0).contains(row));
        }
    }
}

/// That no two scanned edges have the same id.
pub open spec fn unique_edges(edges: Seq<ScannedEdgeView>) -> bool {
    forall|a: int, b: int|
        0 <= a < b < edges.len() ==> (#[trigger] edges[a]).row.id != (#[trigger] edges[b]).row.id
}

/// Whether one of the scanned edges is one that a `NOT EXISTS` forbids.
pub open spec fn scanned_forbids(
    edges: Seq<ScannedEdgeView>,
    step: AntiJoinStepView,
    conditions: Seq<PropertyFilterView>,
    b: BindingView,
) -> bool {
    exists|i: int|
        0 <= i < edges.len() && edge_forbids(#[trigger] edges[i], step, conditions, b)
}

pub open spec fn edge_forbids(
    e: ScannedEdgeView,
    step: AntiJoinStepView,
    conditions: Seq<PropertyFilterView>,
    b: BindingView,
) -> bool {
    let outgoing = is_outgoing(step.direction);
    builder::near_end(e.row, outgoing) == b.nodes[step.from_alias] && builder::far_end(
        e.row,
        outgoing,
    ) == b.nodes[step.to_alias] && edge_fits(e, step.edge_type) && filter_eval::passes_all(
        e.row.properties,
        conditions,
    )
}

/// A `NOT EXISTS` over an outgoing edge, or without conditions, is decided by
/// the edges of the graph, and the partition that owns the node it goes from
/// has all it takes.
pub proof fn law_not_exists_is_decided_by_the_owner(
    g: IndexGeneration,
    s: SchemaView,
    p: u32,
    n: u32,
    nodes: Seq<ScannedNodeView>,
    edges: Seq<ScannedEdgeView>,
    step: AntiJoinStepView,
    conditions: Seq<PropertyFilterView>,
    b: BindingView,
)
    requires
        n > 0,
        builder::indexes(g, s, PartitionId(p), n, nodes, edges),
        no_dangling(nodes, edges),
        unique_edges(edges),
        step.direction == Direction::Outgoing || conditions.len() == 0,
        partitioning::owner(b.nodes[step.from_alias], n) == p,
    ensures
        local_executor::has_forbidden(g, step, conditions, b) <==> scanned_forbids(
            edges,
            step,
            conditions,
            b,
        ),
{
    let from = b.nodes[step.from_alias];
    let to = b.nodes[step.to_alias];
    let partition = PartitionId(p);
    let ids = builder::ids_of(builder::owned_nodes(nodes, partition, n));
    let outgoing = is_outgoing(step.direction);
    let entries = walk::entries_of(g.topology, from, step.direction);
    assert(entries == g.topology.out_of(from) || entries == g.topology.in_to(from));
    assert(entries == if ids.contains(from) {
        builder::adjacent(edges, from, ids, partition, n, outgoing)
    } else {
        seq![]
    });
    laws::law_a_partition_holds_what_it_owns(nodes, partition, n, from);
    let records = builder::edge_record_views(g.edge_records.map());
    assert(records.dom() =~= g.edge_records.map().dom());
    assert forall|k: int|
        0 <= k < edges.len() && builder::near_end((#[trigger] edges[k]).row, outgoing)
            == from implies ({
        let e = builder::entry_of(edges[k], ids, partition, n, outgoing);
        &&& entries.contains(e)
        &&& local_executor::forbidden(g, step, conditions, e, to) <==> edge_forbids(
            edges[k],
            step,
            conditions,
            b,
        )
    }) by {
        let e = builder::entry_of(edges[k], ids, partition, n, outgoing);
        let far = builder::far_end(edges[k].row, outgoing);
        assert(builder::ids_of(nodes).contains(far) && builder::ids_of(nodes).contains(from));
        laws::law_a_partition_holds_what_it_owns(nodes, partition, n, far);
        laws::lemma_adjacent(edges, from, ids, partition, n, outgoing, e);
        if outgoing {
            laws::law_edge_records_hold_what_was_scanned(edges, partition, n, k);
            assert(records[edges[k].row.id.0] == g.edge_records.map()[edges[k].row.id.0]@);
            assert(local_executor::edge_properties(g, e.edge_id) == edges[k].row.properties);
        }
    }
    if local_executor::has_forbidden(g, step, conditions, b) {
        let i = choose|i: int|
            0 <= i < entries.len() && local_executor::forbidden(
                g,
                step,
                conditions,
                #[trigger] entries[i],
                to,
            );
        let e = entries[i];
        assert(entries.contains(e));
        laws::lemma_adjacent(edges, from, ids, partition, n, outgoing, e);
        let k = choose|k: int|
            0 <= k < edges.len() && builder::near_end((#[trigger] edges[k]).row, outgoing) == from
                && builder::leads_on(edges[k], ids, partition, n, outgoing)
                && e == builder::entry_of(edges[k], ids, partition, n, outgoing);
        assert(edge_forbids(edges[k], step, conditions, b));
    }
    if scanned_forbids(edges, step, conditions, b) {
        let k = choose|k: int|
            0 <= k < edges.len() && edge_forbids(#[trigger] edges[k], step, conditions, b);
        let e = builder::entry_of(edges[k], ids, partition, n, outgoing);
        assert(entries.contains(e));
        let i = choose|i: int| 0 <= i < entries.len() && entries[i] == e;
        assert(local_executor::forbidden(g, step, conditions, entries[i], to));
    }
}

/// A `NOT EXISTS` over an outgoing edge, or without conditions, keeps the same
/// rows on a divided graph as on the undivided one.
pub proof fn law_not_exists_is_the_same_divided_or_not(
    g: IndexGeneration,
    gs: Seq<IndexGeneration>,
    s: SchemaView,
    nodes: Seq<ScannedNodeView>,
    edges: Seq<ScannedEdgeView>,
    step: AntiJoinStepView,
    conditions: Seq<PropertyFilterView>,
    b: BindingView,
)
    requires
        holds_all(g, s, nodes, edges),
        divides(gs, s, nodes, edges),
        no_dangling(nodes, edges),
        unique_edges(edges),
        step.direction == Direction::Outgoing || conditions.len() == 0,
    ensures
        partitioning::owner(b.nodes[step.from_alias], gs.len() as u32) < gs.len(),
        local_executor::has_forbidden(
            gs[partitioning::owner(b.nodes[step.from_alias], gs.len() as u32) as int],
            step,
            conditions,
            b,
        ) == local_executor::has_forbidden(g, step, conditions, b),
{
    let n = gs.len() as u32;
    let from = b.nodes[step.from_alias];
    partitioning::law_every_node_has_one_owner(from, n);
    partitioning::law_every_node_has_one_owner(from, 1);
    let p = partitioning::owner(from, n);
    assert(builder::indexes(gs[p as int], s, PartitionId(p), n, nodes, edges));
    law_not_exists_is_decided_by_the_owner(
        gs[p as int],
        s,
        p,
        n,
        nodes,
        edges,
        step,
        conditions,
        b,
    );
    law_not_exists_is_decided_by_the_owner(g, s, 0, 1, nodes, edges, step, conditions, b);
}

} // verus!
