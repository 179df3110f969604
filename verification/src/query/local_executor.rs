//! Executes the steps of a plan on the index of one partition.
use crate::dsl::{ComparisonOp, PropertyFilter, PropertyFilterView};
use crate::index;
use crate::index::generation;
use crate::index::generation::GenerationHandle;
use crate::index::{
    AdjacencyEntryView, IndexGeneration, NodeRecord, PropertyIndex, RemoteRef, TopologicalIndex,
};
use crate::query;
use crate::query::filter_eval;
use crate::query::lookup;
use crate::query::planner;
use crate::query::walk;
use crate::query::{
    AntiJoinStep, AntiJoinStepView, Binding, BindingView, ExecutionError, ExecutionErrorView,
    ExpandHopView, Frontier, FrontierView, PlanStep, PlanStepView,
};
use crate::schema::{EdgeId, NodeId};
use crate::storage::PropertyValueView;
use crate::text;
use crate::text::Duplicate;
use std::collections::HashSet;
use vstd::prelude::*;
use vstd::string::*;

verus! {

broadcast use vstd::std_specs::hash::group_hash_axioms;

/// One row for each node.
pub open spec fn bind_all(alias: Seq<char>, ids: Seq<NodeId>) -> Seq<BindingView> {
    Seq::new(ids.len(), |i: int| BindingView::of_node(alias, ids[i]))
}

/// What resolving a start by a property gives.
pub open spec fn resolved_start(g: IndexGeneration, step: PlanStepView) -> Result<
    Seq<BindingView>,
    ExecutionErrorView,
> {
    match step {
        PlanStepView::ResolveStart { alias, label_or_type, property, key } => Ok(
            bind_all(
                alias,
                lookup::ids_equal_to(
                    g.properties.tree(label_or_type, property),
                    key,
                    lookup::key_instant(key),
                ),
            ),
        ),
        _ => Err(
            ExecutionErrorView::UnknownAlias("resolve_start called with a non-ResolveStart step"@),
        ),
    }
}

/// The nodes of a label among the records of an index, in their order.
pub open spec fn labelled(ids: Seq<u64>, records: Map<u64, NodeRecord>, label: Seq<char>) -> Seq<
    NodeId,
>
    decreases ids.len(),
{
    if ids.len() == 0 {
        seq![]
    } else {
        let rest = labelled(ids.drop_last(), records, label);
        if records.dom().contains(ids.last()) && records[ids.last()]@.label == label {
            rest.push(NodeId(ids.last()))
        } else {
            rest
        }
    }
}

/// What resolving a start by its label gives.
pub open spec fn resolved_all(g: IndexGeneration, step: PlanStepView) -> Result<
    Seq<BindingView>,
    ExecutionErrorView,
> {
    match step {
        PlanStepView::ResolveAll { alias, label } => Ok(
            bind_all(alias, labelled(g.node_records.order(), g.node_records.map(), label)),
        ),
        _ => Err(
            ExecutionErrorView::UnknownAlias("resolve_all called with a non-ResolveAll step"@),
        ),
    }
}

/// One row for each node that was walked to.
pub open spec fn rows_to(b: BindingView, alias: Seq<char>, ids: Seq<NodeId>) -> Seq<BindingView> {
    Seq::new(ids.len(), |i: int| b.with_node(alias, ids[i]))
}

/// One row for each remote reference that was met.
pub open spec fn rows_beyond(b: BindingView, alias: Seq<char>, refs: Seq<RemoteRef>) -> Seq<
    (RemoteRef, BindingView),
> {
    Seq::new(refs.len(), |i: int| (refs[i], b.with_node(alias, refs[i].node)))
}

/// One row for each edge that leads to a local node, the edge bound too.
pub open spec fn edge_rows(
    b: BindingView,
    step: ExpandHopView,
    entries: Seq<AdjacencyEntryView>,
) -> Seq<BindingView>
    decreases entries.len(),
{
    if entries.len() == 0 {
        seq![]
    } else {
        let rest = edge_rows(b, step, entries.drop_last());
        match entries.last().dst_local {
            Some(d) => if walk::type_fits(entries.last(), step.edge_type) {
                rest.push(
                    b.with_node(step.to_alias, d).with_edge(
                        step.edge_alias->Some_0,
                        entries.last().edge_id,
                    ),
                )
            } else {
                rest
            },
            None => rest,
        }
    }
}

/// One row for each edge that leads to a remote node, the edge bound too.
pub open spec fn edge_rows_beyond(
    b: BindingView,
    step: ExpandHopView,
    entries: Seq<AdjacencyEntryView>,
) -> Seq<(RemoteRef, BindingView)>
    decreases entries.len(),
{
    if entries.len() == 0 {
        seq![]
    } else {
        let rest = edge_rows_beyond(b, step, entries.drop_last());
        match (entries.last().dst_local, entries.last().dst_remote) {
            (None, Some(r)) => if walk::type_fits(entries.last(), step.edge_type) {
                rest.push(
                    (
                        r,
                        b.with_node(step.to_alias, r.node).with_edge(
                            step.edge_alias->Some_0,
                            entries.last().edge_id,
                        ),
                    ),
                )
            } else {
                rest
            },
            _ => rest,
        }
    }
}

/// Whether a step binds the edge that it walks: it has an alias for it and
/// takes one hop.
pub open spec fn binds_edge(step: ExpandHopView) -> bool {
    step.edge_alias is Some && step.hops.min == 1 && step.hops.max == 1
}

/// The rows that one row expands to, before filters.
pub open spec fn expand_row(t: TopologicalIndex, step: ExpandHopView, b: BindingView) -> FrontierView {
    let start = b.nodes[step.from_alias];
    if binds_edge(step) {
        let entries = walk::entries_of(t, start, step.direction);
        FrontierView {
            local: edge_rows(b, step, entries),
            remote: edge_rows_beyond(b, step, entries),
        }
    } else {
        FrontierView {
            local: rows_to(
                b,
                step.to_alias,
                walk::hits_within(
                    t,
                    step.direction,
                    step.edge_type,
                    start,
                    step.hops.min as nat,
                    step.hops.max as nat,
                ),
            ),
            remote: rows_beyond(
                b,
                step.to_alias,
                walk::refs_within(
                    t,
                    step.direction,
                    step.edge_type,
                    start,
                    step.hops.max as nat,
                ),
            ),
        }
    }
}

/// The rows that rows expand to, before filters.
pub open spec fn expand_rows(
    t: TopologicalIndex,
    step: ExpandHopView,
    frontier: Seq<BindingView>,
) -> FrontierView
    decreases frontier.len(),
{
    if frontier.len() == 0 {
        FrontierView { local: seq![], remote: seq![] }
    } else {
        let rest = expand_rows(t, step, frontier.drop_last());
        let last = expand_row(t, step, frontier.last());
        FrontierView { local: rest.local + last.local, remote: rest.remote + last.remote }
    }
}

/// That every row binds an alias to a node.
pub open spec fn all_bind(frontier: Seq<BindingView>, alias: Seq<char>) -> bool {
    forall|i: int|
        0 <= i < frontier.len() ==> (#[trigger] frontier[i]).nodes.dom().contains(alias)
}

/// The property of the first filter that the index cannot answer: one for
/// inequality.
pub open spec fn first_inequality(filters: Seq<PropertyFilterView>) -> Option<Seq<char>>
    decreases filters.len(),
{
    if filters.len() == 0 {
        None
    } else if filters[0].op == ComparisonOp::Ne {
        Some(filters[0].property)
    } else {
        first_inequality(filters.drop_first())
    }
}

/// That the filters up to the first for inequality have keys.
pub open spec fn filters_keyable(filters: Seq<PropertyFilterView>) -> bool
    decreases filters.len(),
{
    if filters.len() == 0 {
        true
    } else {
        planner::keyable(filters[0].value) && (filters[0].op == ComparisonOp::Ne
            || filters_keyable(filters.drop_first()))
    }
}

/// The nodes of a label that pass a filter, as the index has them.
pub open spec fn indexed_ids(p: PropertyIndex, label: Seq<char>, f: PropertyFilterView) -> Seq<
    NodeId,
> {
    lookup::ids_passing(p, label, f, filter_eval::literal_instant(f.value))
}

/// Whether a node passes all filters, as the index has it.
pub open spec fn index_allows(
    p: PropertyIndex,
    label: Seq<char>,
    filters: Seq<PropertyFilterView>,
    node: NodeId,
) -> bool {
    forall|i: int|
        0 <= i < filters.len() ==> indexed_ids(p, label, #[trigger] filters[i]).contains(node)
}

/// The rows whose node under an alias passes all filters.
pub open spec fn keep_allowed(
    p: PropertyIndex,
    label: Seq<char>,
    filters: Seq<PropertyFilterView>,
    alias: Seq<char>,
    rows: Seq<BindingView>,
) -> Seq<BindingView>
    decreases rows.len(),
{
    if rows.len() == 0 {
        seq![]
    } else {
        let rest = keep_allowed(p, label, filters, alias, rows.drop_last());
        if index_allows(p, label, filters, rows.last().nodes[alias]) {
            rest.push(rows.last())
        } else {
            rest
        }
    }
}

/// Whether a step has filters to apply. Without a label there is no index to
/// apply them by.
pub open spec fn filters_rows(step: ExpandHopView) -> bool {
    step.filters.len() > 0 && step.to_label is Some
}

/// What expanding rows gives.
pub open spec fn expanded(g: IndexGeneration, step: ExpandHopView, frontier: Seq<BindingView>) -> Result<
    FrontierView,
    ExecutionErrorView,
> {
    if !all_bind(frontier, step.from_alias) {
        Err(ExecutionErrorView::UnknownAlias(step.from_alias))
    } else {
        let rows = expand_rows(g.topology, step, frontier);
        if !filters_rows(step) {
            Ok(rows)
        } else {
            match first_inequality(step.filters) {
                Some(property) => Err(
                    ExecutionErrorView::UnknownAlias(
                        "WHERE ... <> on property "@ + property + " is not supported in v1"@,
                    ),
                ),
                None => Ok(
                    FrontierView {
                        local: keep_allowed(
                            g.properties,
                            step.to_label->Some_0,
                            step.filters,
                            step.to_alias,
                            rows.local,
                        ),
                        remote: rows.remote,
                    },
                ),
            }
        }
    }
}

/// What expanding rows by any step gives.
pub open spec fn expanded_by(g: IndexGeneration, step: PlanStepView, frontier: Seq<BindingView>) -> Result<
    FrontierView,
    ExecutionErrorView,
> {
    match step {
        PlanStepView::ExpandHop(hop) => expanded(g, hop, frontier),
        _ => Err(ExecutionErrorView::UnknownAlias("expand_hop called with a non-ExpandHop step"@)),
    }
}

/// Whether an edge leads to a node, here or elsewhere.
pub open spec fn entry_leads_to(e: AdjacencyEntryView, node: NodeId) -> bool {
    match e.dst_local {
        Some(d) => d == node,
        None => match e.dst_remote {
            Some(r) => r.node == node,
            None => false,
        },
    }
}

/// What is known of the properties of an edge.
pub open spec fn edge_properties(g: IndexGeneration, edge: EdgeId) -> Map<
    Seq<char>,
    PropertyValueView,
> {
    if g.edge_records.map().dom().contains(edge.0) {
        g.edge_records.map()[edge.0]@.properties
    } else {
        Map::empty()
    }
}

/// Whether an edge is one that a `NOT EXISTS` forbids between its ends.
pub open spec fn forbidden(
    g: IndexGeneration,
    step: AntiJoinStepView,
    conditions: Seq<PropertyFilterView>,
    e: AdjacencyEntryView,
    to: NodeId,
) -> bool {
    walk::type_fits(e, step.edge_type) && entry_leads_to(e, to) && filter_eval::passes_all(
        edge_properties(g, e.edge_id),
        conditions,
    )
}

/// Whether a row has an edge that a `NOT EXISTS` forbids.
pub open spec fn has_forbidden(
    g: IndexGeneration,
    step: AntiJoinStepView,
    conditions: Seq<PropertyFilterView>,
    b: BindingView,
) -> bool {
    let entries = walk::entries_of(g.topology, b.nodes[step.from_alias], step.direction);
    exists|i: int|
        0 <= i < entries.len() && forbidden(
            g,
            step,
            conditions,
            #[trigger] entries[i],
            b.nodes[step.to_alias],
        )
}

/// The rows that a `NOT EXISTS` leaves.
pub open spec fn survivors(
    g: IndexGeneration,
    step: AntiJoinStepView,
    conditions: Seq<PropertyFilterView>,
    rows: Seq<BindingView>,
) -> Seq<BindingView>
    decreases rows.len(),
{
    if rows.len() == 0 {
        seq![]
    } else {
        let rest = survivors(g, step, conditions, rows.drop_last());
        if has_forbidden(g, step, conditions, rows.last()) {
            rest
        } else {
            rest.push(rows.last())
        }
    }
}

/// The alias of a `NOT EXISTS` that the first row to miss one misses.
pub open spec fn first_unbound(rows: Seq<BindingView>, step: AntiJoinStepView) -> Option<Seq<char>>
    decreases rows.len(),
{
    if rows.len() == 0 {
        None
    } else if !rows[0].nodes.dom().contains(step.from_alias) {
        Some(step.from_alias)
    } else if !rows[0].nodes.dom().contains(step.to_alias) {
        Some(step.to_alias)
    } else {
        first_unbound(rows.drop_first(), step)
    }
}

/// What checking a `NOT EXISTS` gives.
pub open spec fn checked(
    g: IndexGeneration,
    step: AntiJoinStepView,
    conditions: Seq<PropertyFilterView>,
    rows: Seq<BindingView>,
) -> Result<Seq<BindingView>, ExecutionErrorView> {
    match first_unbound(rows, step) {
        Some(alias) => Err(ExecutionErrorView::UnknownAlias(alias)),
        None => Ok(survivors(g, step, conditions, rows)),
    }
}

/// What an expansion gave.
pub open spec fn frontier_view(r: Result<Frontier, ExecutionError>) -> Result<
    FrontierView,
    ExecutionErrorView,
> {
    match r {
        Ok(f) => Ok(f@),
        Err(e) => Err(e@),
    }
}

/// Resolves a start by a property.
pub fn resolve_start_in(g: &IndexGeneration, step: &PlanStep) -> (r: Result<
    Vec<Binding>,
    ExecutionError,
>)
    ensures
        query::rows_view(r) == resolved_start(*g, step@),
{
    match step {
        PlanStep::ResolveStart { alias, label_or_type, property, key } => {
            let ids = lookup::find_ids(
                &g.properties,
                label_or_type.as_str(),
                property.as_str(),
                key,
                lookup::key_instant_exec(key),
            );
            let mut rows: Vec<Binding> = Vec::new();
            let mut i: usize = 0;
            while i < ids.len()
                invariant
                    i <= ids@.len(),
                    rows@.len() == i,
                    forall|k: int|
                        0 <= k < i ==> (#[trigger] rows@[k])@ == BindingView::of_node(
                            alias@,
                            ids@[k],
                        ),
                decreases ids.len() - i,
            {
                rows.push(Binding::from_node(alias.clone(), ids[i]));
                i = i + 1;
            }
            assert(text::views(rows@) =~= bind_all(alias@, ids@));
            Ok(rows)
        },
        _ => Err(
            ExecutionError::UnknownAlias(
                "resolve_start called with a non-ResolveStart step".to_owned(),
            ),
        ),
    }
}

/// Resolves a start by its label.
pub fn resolve_all_in(g: &IndexGeneration, step: &PlanStep) -> (r: Result<
    Vec<Binding>,
    ExecutionError,
>)
    requires
        g.wf(),
    ensures
        query::rows_view(r) == resolved_all(*g, step@),
{
    match step {
        PlanStep::ResolveAll { alias, label } => {
            let ghost order = g.node_records.order();
            let ghost records = g.node_records.map();
            let mut rows: Vec<Binding> = Vec::new();
            let mut i: usize = 0;
            assert(order.take(0) =~= Seq::<u64>::empty());
            assert(text::views(rows@) =~= bind_all(alias@, Seq::empty()));
            while i < g.node_records.len()
                invariant
                    i <= order.len(),
                    g.wf(),
                    order == g.node_records.order(),
                    records == g.node_records.map(),
                    text::views(rows@) == bind_all(
                        alias@,
                        labelled(order.take(i as int), records, label@),
                    ),
                decreases order.len() - i,
            {
                assert(order.take(i + 1).drop_last() =~= order.take(i as int));
                assert(order.take(i + 1).last() == order[i as int]);
                let ghost before = labelled(order.take(i as int), records, label@);
                let id: u64 = g.node_records.key(i);
                if let Some(record) = g.node_records.get(id) {
                    if record.label.0 == *label {
                        let row = Binding::from_node(alias.clone(), NodeId(id));
                        proof {
                            text::lemma_views_push(rows@, row);
                            assert(bind_all(alias@, before.push(NodeId(id))) =~= bind_all(
                                alias@,
                                before,
                            ).push(row@));
                        }
                        rows.push(row);
                    }
                }
                i = i + 1;
            }
            assert(order.take(order.len() as int) =~= order);
            Ok(rows)
        },
        _ => Err(
            ExecutionError::UnknownAlias("resolve_all called with a non-ResolveAll step".to_owned()),
        ),
    }
}

proof fn lemma_remote_views_push(rows: Seq<(RemoteRef, Binding)>, x: (RemoteRef, Binding))
    ensures
        query::remote_views(rows.push(x)) == query::remote_views(rows).push((x.0, x.1@)),
{
    assert(query::remote_views(rows.push(x)) =~= query::remote_views(rows).push((x.0, x.1@)));
}

/// Adds the rows that a row expands to edge by edge.
fn expand_edges(
    t: &TopologicalIndex,
    step: &PlanStep,
    b: &Binding,
    start: NodeId,
    out: &mut Frontier,
)
    requires
        t.wf(),
        step@ is ExpandHop,
        binds_edge(step@->ExpandHop_0),
        b@.nodes.dom().contains((step@->ExpandHop_0).from_alias),
        start == b@.nodes[(step@->ExpandHop_0).from_alias],
    ensures
        final(out)@.local == old(out)@.local + expand_row(*t, step@->ExpandHop_0, b@).local,
        final(out)@.remote == old(out)@.remote + expand_row(*t, step@->ExpandHop_0, b@).remote,
{
    let ghost hop = step@->ExpandHop_0;
    if let PlanStep::ExpandHop { to_alias, edge_type, direction, edge_alias, .. } = step {
        if let Some(edge_alias) = edge_alias {
            let row = walk::entries(t, start, *direction);
            let ghost all = text::views(row@);
            let ghost local = out@.local;
            let ghost remote = out@.remote;
            let mut i: usize = 0;
            assert(all.take(0) =~= Seq::<AdjacencyEntryView>::empty());
            assert(local + edge_rows(b@, hop, all.take(0)) =~= local);
            assert(remote + edge_rows_beyond(b@, hop, all.take(0)) =~= remote);
            while i < row.len()
                invariant
                    i <= row@.len(),
                    all == text::views(row@),
                    hop == step@->ExpandHop_0,
                    hop.to_alias == to_alias@,
                    hop.edge_type == text::option_view(*edge_type),
                    hop.edge_alias == Some(edge_alias@),
                    out@.local == local + edge_rows(b@, hop, all.take(i as int)),
                    out@.remote == remote + edge_rows_beyond(b@, hop, all.take(i as int)),
                decreases row.len() - i,
            {
                assert(all.take(i + 1).drop_last() =~= all.take(i as int));
                assert(all.take(i + 1).last() == row@[i as int]@);
                let ghost before = edge_rows(b@, hop, all.take(i as int));
                let ghost beyond = edge_rows_beyond(b@, hop, all.take(i as int));
                let e = &row[i];
                if walk::type_fits_exec(e, edge_type) {
                    match e.dst_local {
                        Some(d) => {
                            let mut x = b.extended(to_alias, d);
                            x.edges.insert(edge_alias.clone(), e.edge_id);
                            proof {
                                text::lemma_views_push(out.local@, x);
                                assert((local + before).push(x@) =~= local + before.push(x@));
                            }
                            out.local.push(x);
                        },
                        None => {
                            if let Some(r) = e.dst_remote {
                                let mut x = b.extended(to_alias, r.node);
                                x.edges.insert(edge_alias.clone(), e.edge_id);
                                proof {
                                    lemma_remote_views_push(out.remote@, (r, x));
                                    assert((remote + beyond).push((r, x@)) =~= remote
                                        + beyond.push((r, x@)));
                                }
                                out.remote.push((r, x));
                            }
                        },
                    }
                }
                i = i + 1;
            }
            assert(all.take(all.len() as int) =~= all);
        }
    }
}

/// Adds the rows that a row expands to node by node.
fn expand_walk(
    t: &TopologicalIndex,
    step: &PlanStep,
    b: &Binding,
    start: NodeId,
    out: &mut Frontier,
)
    requires
        t.wf(),
        step@ is ExpandHop,
        !binds_edge(step@->ExpandHop_0),
        b@.nodes.dom().contains((step@->ExpandHop_0).from_alias),
        start == b@.nodes[(step@->ExpandHop_0).from_alias],
    ensures
        final(out)@.local == old(out)@.local + expand_row(*t, step@->ExpandHop_0, b@).local,
        final(out)@.remote == old(out)@.remote + expand_row(*t, step@->ExpandHop_0, b@).remote,
{
    if let PlanStep::ExpandHop { to_alias, edge_type, direction, hops, .. } = step {
        let (hits, refs) = walk::walk(t, *direction, edge_type, start, *hops);
        let ghost local = out@.local;
        let ghost remote = out@.remote;
        let ghost rows = rows_to(b@, to_alias@, hits@);
        let ghost beyond = rows_beyond(b@, to_alias@, refs@);
        let mut i: usize = 0;
        assert(local + rows.take(0) =~= local);
        while i < hits.len()
            invariant
                i <= hits@.len(),
                rows == rows_to(b@, to_alias@, hits@),
                out@.local == local + rows.take(i as int),
                out@.remote == remote,
            decreases hits.len() - i,
        {
            let x = b.extended(to_alias, hits[i]);
            proof {
                text::lemma_views_push(out.local@, x);
                assert((local + rows.take(i as int)).push(x@) =~= local + rows.take(i + 1));
            }
            out.local.push(x);
            i = i + 1;
        }
        assert(rows.take(rows.len() as int) =~= rows);
        let mut j: usize = 0;
        assert(remote + beyond.take(0) =~= remote);
        while j < refs.len()
            invariant
                j <= refs@.len(),
                beyond == rows_beyond(b@, to_alias@, refs@),
                out@.local == local + rows,
                out@.remote == remote + beyond.take(j as int),
            decreases refs.len() - j,
        {
            let x = b.extended(to_alias, refs[j].node);
            proof {
                lemma_remote_views_push(out.remote@, (refs@[j as int], x));
                assert((remote + beyond.take(j as int)).push((refs@[j as int], x@)) =~= remote
                    + beyond.take(j + 1));
            }
            out.remote.push((refs[j], x));
            j = j + 1;
        }
        assert(beyond.take(beyond.len() as int) =~= beyond);
    }
}

/// The nodes of a label that pass a filter.
fn property_filter_matches(p: &PropertyIndex, label: &str, filter: &PropertyFilter) -> (r: Vec<
    NodeId,
>)
    requires
        planner::keyable(filter@.value),
        filter@.op != ComparisonOp::Ne,
    ensures
        r@ == indexed_ids(*p, label@, filter@),
{
    lookup::filter_ids(p, label, filter, filter_eval::literal_instant_exec(&filter.value))
}

/// The nodes of a list, as a set.
fn node_set(ids: &Vec<NodeId>) -> (r: HashSet<u64>)
    ensures
        forall|x: NodeId| #[trigger] r@.contains(x.0) <==> ids@.contains(x),
{
    let mut set: HashSet<u64> = HashSet::new();
    let mut i: usize = 0;
    while i < ids.len()
        invariant
            i <= ids@.len(),
            forall|x: NodeId| #[trigger] set@.contains(x.0) <==> ids@.take(i as int).contains(x),
        decreases ids.len() - i,
    {
        let ghost before = set@;
        set.insert(ids[i].0);
        assert forall|x: NodeId| #[trigger] set@.contains(x.0) <==> ids@.take(i + 1).contains(
            x,
        ) by {
            let now = ids@.take(i + 1);
            let earlier = ids@.take(i as int);
            assert(before.contains(x.0) <==> earlier.contains(x));
            assert(now =~= earlier.push(ids@[i as int]));
            assert(now[i as int] == ids@[i as int]);
            if earlier.contains(x) {
                let k = choose|k: int| 0 <= k < earlier.len() && earlier[k] == x;
                assert(now[k] == x);
            }
            if now.contains(x) && x != ids@[i as int] {
                let k = choose|k: int| 0 <= k < now.len() && now[k] == x;
                assert(earlier[k] == x);
            }
        }
        i = i + 1;
    }
    assert(ids@.take(ids@.len() as int) =~= ids@);
    set
}

/// Whether a node is in all sets.
fn in_all(sets: &Vec<HashSet<u64>>, node: NodeId) -> (r: bool)
    ensures
        r == (forall|i: int| 0 <= i < sets@.len() ==> (#[trigger] sets@[i])@.contains(node.0)),
{
    let mut i: usize = 0;
    while i < sets.len()
        invariant
            i <= sets@.len(),
            forall|k: int| 0 <= k < i ==> (#[trigger] sets@[k])@.contains(node.0),
        decreases sets.len() - i,
    {
        if !sets[i].contains(&node.0) {
            assert(!sets@[i as int]@.contains(node.0));
            return false;
        }
        i = i + 1;
    }
    true
}

/// The message for a filter for inequality.
fn inequality_message(property: &String) -> (r: String)
    ensures
        r@ == "WHERE ... <> on property "@ + property@ + " is not supported in v1"@,
{
    let mut m: String = "WHERE ... <> on property ".to_owned();
    m.append(property.as_str());
    m.append(" is not supported in v1");
    m
}

proof fn lemma_first_inequality_none(filters: Seq<PropertyFilterView>, i: int)
    requires
        0 <= i < filters.len(),
        first_inequality(filters) is None,
        filters_keyable(filters),
    ensures
        filters[i].op != ComparisonOp::Ne,
        planner::keyable(filters[i].value),
    decreases filters.len(),
{
    if i > 0 {
        lemma_first_inequality_none(filters.drop_first(), i - 1);
        assert(filters.drop_first()[i - 1] == filters[i]);
    }
}

/// The first filter for inequality.
fn find_inequality(filters: &Vec<PropertyFilter>) -> (r: Option<&PropertyFilter>)
    ensures
        match r {
            Some(f) => first_inequality(text::views(filters@)) == Some(f@.property),
            None => first_inequality(text::views(filters@)) is None,
        },
{
    let ghost all = text::views(filters@);
    let mut i: usize = 0;
    assert(all.skip(0) =~= all);
    while i < filters.len()
        invariant
            i <= filters@.len(),
            all == text::views(filters@),
            first_inequality(all) == first_inequality(all.skip(i as int)),
        decreases filters.len() - i,
    {
        assert(all.skip(i as int)[0] == filters@[i as int]@);
        assert(all.skip(i as int).drop_first() =~= all.skip(i + 1));
        if filters[i].op == ComparisonOp::Ne {
            return Some(&filters[i]);
        }
        i = i + 1;
    }
    None
}

/// Keeps the rows whose node passes all filters.
fn apply_filters(
    p: &PropertyIndex,
    label: &str,
    alias: &str,
    filters: &Vec<PropertyFilter>,
    rows: Vec<Binding>,
) -> (r: Vec<Binding>)
    requires
        filters_keyable(text::views(filters@)),
        first_inequality(text::views(filters@)) is None,
        all_bind(text::views(rows@), alias@),
    ensures
        text::views(r@) == keep_allowed(
            *p,
            label@,
            text::views(filters@),
            alias@,
            text::views(rows@),
        ),
{
    let ghost fs = text::views(filters@);
    let ghost all = text::views(rows@);
    let mut sets: Vec<HashSet<u64>> = Vec::new();
    let mut i: usize = 0;
    while i < filters.len()
        invariant
            i <= filters@.len(),
            fs == text::views(filters@),
            filters_keyable(fs),
            first_inequality(fs) is None,
            sets@.len() == i,
            forall|k: int, x: NodeId|
                0 <= k < i ==> (#[trigger] sets@[k]@.contains(x.0) <==> indexed_ids(
                    *p,
                    label@,
                    fs[k],
                ).contains(x)),
        decreases filters.len() - i,
    {
        proof {
            lemma_first_inequality_none(fs, i as int);
            assert(fs[i as int] == filters@[i as int]@);
        }
        let ids = property_filter_matches(p, label, &filters[i]);
        let set = node_set(&ids);
        let ghost before = sets@;
        sets.push(set);
        assert forall|k: int, x: NodeId| 0 <= k < i + 1 implies (#[trigger] sets@[k]@.contains(x.0)
            <==> indexed_ids(*p, label@, fs[k]).contains(x)) by {
            if k < i {
                assert(sets@[k] == before[k]);
                assert(before[k]@.contains(x.0) <==> indexed_ids(*p, label@, fs[k]).contains(x));
            }
        }
        i = i + 1;
    }
    let mut kept: Vec<Binding> = Vec::new();
    assert(all.take(0) =~= Seq::<BindingView>::empty());
    assert(text::views(kept@) =~= Seq::<BindingView>::empty());
    for b in it: rows
        invariant
            it.seq().len() == all.len(),
            forall|i: int| 0 <= i < all.len() ==> all[i] == (#[trigger] it.seq()[i])@,
            all_bind(all, alias@),
            sets@.len() == fs.len(),
            forall|k: int, x: NodeId|
                0 <= k < fs.len() ==> (#[trigger] sets@[k]@.contains(x.0) <==> indexed_ids(
                    *p,
                    label@,
                    fs[k],
                ).contains(x)),
            text::views(kept@) == keep_allowed(*p, label@, fs, alias@, all.take(it.index())),
    {
        let ghost i = it.index();
        assert(all.take(i + 1).drop_last() =~= all.take(i));
        assert(all.take(i + 1).last() == b@);
        assert(all[i].nodes.dom().contains(alias@));
        let node = match b.nodes.get(alias) {
            Some(n) => *n,
            None => NodeId(0),
        };
        let allowed = in_all(&sets, node);
        proof {
            if allowed {
                assert forall|k: int| 0 <= k < fs.len() implies indexed_ids(
                    *p,
                    label@,
                    #[trigger] fs[k],
                ).contains(node) by {
                    assert(sets@[k]@.contains(node.0));
                }
            } else {
                let k = choose|k: int|
                    0 <= k < sets@.len() && !(#[trigger] sets@[k])@.contains(node.0);
                assert(!sets@[k]@.contains(node.0));
                assert(!indexed_ids(*p, label@, fs[k]).contains(node));
            }
            assert(allowed == index_allows(*p, label@, fs, node));
        }
        if allowed {
            proof {
                text::lemma_views_push(kept@, b);
            }
            kept.push(b);
        }
    }
    assert(all.take(all.len() as int) =~= all);
    kept
}

proof fn lemma_edge_rows_bind(b: BindingView, step: ExpandHopView, entries: Seq<AdjacencyEntryView>)
    ensures
        all_bind(edge_rows(b, step, entries), step.to_alias),
    decreases entries.len(),
{
    if entries.len() > 0 {
        lemma_edge_rows_bind(b, step, entries.drop_last());
    }
}

proof fn lemma_rows_bind(t: TopologicalIndex, step: ExpandHopView, frontier: Seq<BindingView>)
    ensures
        all_bind(expand_rows(t, step, frontier).local, step.to_alias),
    decreases frontier.len(),
{
    if frontier.len() > 0 {
        lemma_rows_bind(t, step, frontier.drop_last());
        let b = frontier.last();
        lemma_edge_rows_bind(
            b,
            step,
            walk::entries_of(t, b.nodes[step.from_alias], step.direction),
        );
    }
}

/// Expands rows by one step.
#[verifier::rlimit(40)]
pub fn expand_hop_in(g: &IndexGeneration, step: &PlanStep, frontier: &Vec<Binding>) -> (r: Result<
    Frontier,
    ExecutionError,
>)
    requires
        g.wf(),
        step@ matches PlanStepView::ExpandHop(hop) ==> (filters_rows(hop) ==> filters_keyable(
            hop.filters,
        )),
    ensures
        frontier_view(r) == expanded_by(*g, step@, text::views(frontier@)),
{
    match step {
        PlanStep::ExpandHop { from_alias, to_alias, to_label, hops, filters, edge_alias, .. } => {
            let ghost hop = step@->ExpandHop_0;
            let ghost all = text::views(frontier@);
            let mut out = Frontier { local: Vec::new(), remote: Vec::new() };
            let mut i: usize = 0;
            assert(all.take(0) =~= Seq::<BindingView>::empty());
            assert(out@.local =~= Seq::<BindingView>::empty());
            assert(out@.remote =~= Seq::<(RemoteRef, BindingView)>::empty());
            while i < frontier.len()
                invariant
                    i <= frontier@.len(),
                    g.wf(),
                    all == text::views(frontier@),
                    step@ == PlanStepView::ExpandHop(hop),
                    hop.from_alias == from_alias@,
                    hop.edge_alias == text::option_view(*edge_alias),
                    hop.hops == *hops,
                    *step matches PlanStep::ExpandHop { .. },
                    forall|k: int|
                        0 <= k < i ==> (#[trigger] all[k]).nodes.dom().contains(from_alias@),
                    out@ == expand_rows(g.topology, hop, all.take(i as int)),
                decreases frontier.len() - i,
            {
                assert(all.take(i + 1).drop_last() =~= all.take(i as int));
                assert(all.take(i + 1).last() == frontier@[i as int]@);
                let b = &frontier[i];
                let start = match b.nodes.get(from_alias.as_str()) {
                    Some(n) => *n,
                    None => {
                        assert(!all[i as int].nodes.dom().contains(from_alias@));
                        return Err(ExecutionError::UnknownAlias(from_alias.clone()));
                    },
                };
                if edge_alias.is_some() && hops.min == 1 && hops.max == 1 {
                    expand_edges(&g.topology, step, b, start, &mut out);
                } else {
                    expand_walk(&g.topology, step, b, start, &mut out);
                }
                i = i + 1;
            }
            assert(all.take(all.len() as int) =~= all);
            if filters.len() == 0 {
                return Ok(out);
            }
            match to_label {
                None => Ok(out),
                Some(label) => {
                    if let Some(f) = find_inequality(filters) {
                        return Err(ExecutionError::UnknownAlias(inequality_message(&f.property)));
                    }
                    proof {
                        lemma_rows_bind(g.topology, hop, all);
                    }
                    let Frontier { local, remote } = out;
                    let kept = apply_filters(
                        &g.properties,
                        label.as_str(),
                        to_alias.as_str(),
                        filters,
                        local,
                    );
                    Ok(Frontier { local: kept, remote })
                },
            }
        },
        _ => Err(
            ExecutionError::UnknownAlias("expand_hop called with a non-ExpandHop step".to_owned()),
        ),
    }
}

/// Whether an edge leads to a node.
fn leads_to_exec(e: &index::AdjacencyEntry, node: NodeId) -> (r: bool)
    ensures
        r == entry_leads_to(e@, node),
{
    match e.dst_local {
        Some(d) => d.0 == node.0,
        None => match e.dst_remote {
            Some(r) => r.node.0 == node.0,
            None => false,
        },
    }
}

/// Whether the properties of an edge pass all conditions.
fn edge_passes(g: &IndexGeneration, edge: EdgeId, conditions: &Vec<PropertyFilter>) -> (r: bool)
    requires
        g.wf(),
    ensures
        r == filter_eval::passes_all(edge_properties(*g, edge), text::views(conditions@)),
{
    match g.edge_records.get(edge.0) {
        Some(record) => filter_eval::evaluate_filters(&record.properties, conditions),
        None => {
            proof {
                if conditions@.len() > 0 {
                    assert(!filter_eval::passes(
                        edge_properties(*g, edge),
                        text::views(conditions@)[0],
                    ));
                }
            }
            conditions.len() == 0
        },
    }
}

/// Checks a `NOT EXISTS` of each row.
pub fn check_anti_join_in(
    g: &IndexGeneration,
    step: &AntiJoinStep,
    conditions: &Vec<PropertyFilter>,
    frontier: &Vec<Binding>,
) -> (r: Result<Vec<Binding>, ExecutionError>)
    requires
        g.wf(),
    ensures
        query::rows_view(r) == checked(
            *g,
            step@,
            text::views(conditions@),
            text::views(frontier@),
        ),
{
    let ghost cs = text::views(conditions@);
    let ghost all = text::views(frontier@);
    let mut kept: Vec<Binding> = Vec::new();
    let mut i: usize = 0;
    assert(all.take(0) =~= Seq::<BindingView>::empty());
    assert(all.skip(0) =~= all);
    assert(text::views(kept@) =~= Seq::<BindingView>::empty());
    while i < frontier.len()
        invariant
            i <= frontier@.len(),
            g.wf(),
            cs == text::views(conditions@),
            all == text::views(frontier@),
            first_unbound(all, step@) == first_unbound(all.skip(i as int), step@),
            text::views(kept@) == survivors(*g, step@, cs, all.take(i as int)),
        decreases frontier.len() - i,
    {
        assert(all.take(i + 1).drop_last() =~= all.take(i as int));
        assert(all.take(i + 1).last() == frontier@[i as int]@);
        assert(all.skip(i as int)[0] == frontier@[i as int]@);
        assert(all.skip(i as int).drop_first() =~= all.skip(i + 1));
        let b = &frontier[i];
        let from = match b.nodes.get(step.from_alias.as_str()) {
            Some(n) => *n,
            None => {
                return Err(ExecutionError::UnknownAlias(step.from_alias.clone()));
            },
        };
        let to = match b.nodes.get(step.to_alias.as_str()) {
            Some(n) => *n,
            None => {
                return Err(ExecutionError::UnknownAlias(step.to_alias.clone()));
            },
        };
        let row = walk::entries(&g.topology, from, step.direction);
        let ghost entries = text::views(row@);
        let mut found = false;
        let mut j: usize = 0;
        while j < row.len() && !found
            invariant
                j <= row@.len(),
                g.wf(),
                cs == text::views(conditions@),
                entries == text::views(row@),
                found == exists|k: int|
                    0 <= k < j && forbidden(*g, step@, cs, #[trigger] entries[k], to),
            decreases row.len() - j,
        {
            assert(entries[j as int] == row@[j as int]@);
            let e = &row[j];
            if walk::type_fits_exec(e, &step.edge_type) && leads_to_exec(e, to) && edge_passes(
                g,
                e.edge_id,
                conditions,
            ) {
                assert(forbidden(*g, step@, cs, entries[j as int], to));
                found = true;
            }
            j = j + 1;
        }
        assert(found == has_forbidden(*g, step@, cs, b@));
        if !found {
            let x = b.duplicate();
            proof {
                text::lemma_views_push(kept@, x);
            }
            kept.push(x);
        }
        i = i + 1;
    }
    assert(all.take(all.len() as int) =~= all);
    Ok(kept)
}

/// Executes steps on the generation that a partition serves at the moment.
/// Which generation that is, is decided when it is acquired.
pub trait LocalExecutor {
    fn resolve_start(&self, index: &GenerationHandle, step: &PlanStep) -> (r: Result<
        Vec<Binding>,
        ExecutionError,
    >)
        ensures
            exists|g: IndexGeneration|
                generation::generations(*index).contains(g) && g.wf() && query::rows_view(r) == #[trigger] resolved_start(g, step@),
    ;

    fn resolve_all(&self, index: &GenerationHandle, step: &PlanStep) -> (r: Result<
        Vec<Binding>,
        ExecutionError,
    >)
        ensures
            exists|g: IndexGeneration|
                generation::generations(*index).contains(g) && g.wf() && query::rows_view(r) == #[trigger] resolved_all(g, step@),
    ;

    fn expand_hop(&self, index: &GenerationHandle, step: &PlanStep, frontier: &Vec<Binding>) -> (r:
        Result<Frontier, ExecutionError>)
        requires
            step@ matches PlanStepView::ExpandHop(hop) ==> (filters_rows(hop) ==> filters_keyable(
                hop.filters,
            )),
        ensures
            exists|g: IndexGeneration|
                generation::generations(*index).contains(g) && g.wf() && frontier_view(r) == #[trigger] expanded_by(
                    g,
                    step@,
                    text::views(frontier@),
                ),
    ;

    fn check_anti_join(
        &self,
        index: &GenerationHandle,
        step: &AntiJoinStep,
        conditions: &Vec<PropertyFilter>,
        frontier: &Vec<Binding>,
    ) -> (r: Result<Vec<Binding>, ExecutionError>)
        ensures
            exists|g: IndexGeneration|
                generation::generations(*index).contains(g) && g.wf() && query::rows_view(r) == #[trigger] checked(
                    g,
                    step@,
                    text::views(conditions@),
                    text::views(frontier@),
                ),
    ;
}

/// Executes steps one by one, without further state.
#[derive(Clone, Copy, Debug)]
pub struct SimpleLocalExecutor;

impl LocalExecutor for SimpleLocalExecutor {
    fn resolve_start(&self, index: &GenerationHandle, step: &PlanStep) -> (r: Result<
        Vec<Binding>,
        ExecutionError,
    >) {
        let g = index.acquire();
        resolve_start_in(&*g, step)
    }

    fn resolve_all(&self, index: &GenerationHandle, step: &PlanStep) -> (r: Result<
        Vec<Binding>,
        ExecutionError,
    >) {
        let g = index.acquire();
        resolve_all_in(&*g, step)
    }

    fn expand_hop(&self, index: &GenerationHandle, step: &PlanStep, frontier: &Vec<Binding>) -> (r:
        Result<Frontier, ExecutionError>) {
        let g = index.acquire();
        expand_hop_in(&*g, step, frontier)
    }

    fn check_anti_join(
        &self,
        index: &GenerationHandle,
        step: &AntiJoinStep,
        conditions: &Vec<PropertyFilter>,
        frontier: &Vec<Binding>,
    ) -> (r: Result<Vec<Binding>, ExecutionError>) {
        let g = index.acquire();
        check_anti_join_in(&*g, step, conditions, frontier)
    }
}

} // verus!
