//! The order in which rows come, and how often: rows are filtered, followed
//! and gathered one behind the other, so that what comes of a part of them
//! does not depend on the rest and stands where that part stood.
use crate::dsl::{ComparisonOp, PropertyFilterView};
use crate::index::{
    AdjacencyEntryView, EdgeRecordView, IndexGeneration, NodeRecord, NodeRecordView, PropertyIndex,
    RemoteRef, TopologicalIndex,
};
use crate::query::distributed;
use crate::query::hydration;
use crate::query::hydration::RecordsView;
use crate::query::local_executor;
use crate::query::routing;
use crate::query::walk;
use crate::query::{AntiJoinStepView, BindingView, ExecutionErrorView, ExpandHopView};
use crate::schema::{EdgeId, NodeId};
use vstd::prelude::*;

verus! {

/// Rows that meet conditions are kept one by one, in their order; the others
/// go.
pub proof fn law_rows_that_meet_conditions_stay_in_order(
    a: Seq<BindingView>,
    b: Seq<BindingView>,
    row: BindingView,
    conditions: Seq<(Seq<char>, PropertyFilterView)>,
    records: RecordsView,
)
    ensures
        hydration::keep_meeting(a + b, conditions, records) == hydration::keep_meeting(
            a,
            conditions,
            records,
        ) + hydration::keep_meeting(b, conditions, records),
        hydration::keep_meeting(seq![row], conditions, records) == if hydration::meets_all(
            row,
            conditions,
            records,
        ) {
            seq![row]
        } else {
            seq![]
        },
    decreases b.len(),
{
    reveal_with_fuel(hydration::keep_meeting, 2);
    assert(seq![row].drop_last() =~= Seq::<BindingView>::empty());
    assert(Seq::<BindingView>::empty().push(row) =~= seq![row]);
    if b.len() == 0 {
        assert(a + b =~= a);
        assert(hydration::keep_meeting(a, conditions, records) + hydration::keep_meeting(
            b,
            conditions,
            records,
        ) =~= hydration::keep_meeting(a, conditions, records));
    } else {
        law_rows_that_meet_conditions_stay_in_order(a, b.drop_last(), row, conditions, records);
        assert((a + b).drop_last() =~= a + b.drop_last());
        assert(hydration::keep_meeting(a + b, conditions, records) =~= hydration::keep_meeting(
            a,
            conditions,
            records,
        ) + hydration::keep_meeting(b, conditions, records));
    }
}

/// Rows that the index allows are kept one by one, in their order.
pub proof fn law_rows_that_the_index_allows_stay_in_order(
    p: PropertyIndex,
    label: Seq<char>,
    filters: Seq<PropertyFilterView>,
    alias: Seq<char>,
    a: Seq<BindingView>,
    b: Seq<BindingView>,
    row: BindingView,
)
    ensures
        local_executor::keep_allowed(p, label, filters, alias, a + b)
            == local_executor::keep_allowed(p, label, filters, alias, a)
            + local_executor::keep_allowed(p, label, filters, alias, b),
        local_executor::keep_allowed(p, label, filters, alias, seq![row]) == if (forall|i: int|
            0 <= i < filters.len() ==> local_executor::indexed_ids(
                p,
                label,
                #[trigger] filters[i],
            ).contains(row.nodes[alias])) {
            seq![row]
        } else {
            seq![]
        },
    decreases b.len(),
{
    reveal_with_fuel(local_executor::keep_allowed, 2);
    assert(seq![row].drop_last() =~= Seq::<BindingView>::empty());
    assert(Seq::<BindingView>::empty().push(row) =~= seq![row]);
    if b.len() == 0 {
        assert(a + b =~= a);
        assert(local_executor::keep_allowed(p, label, filters, alias, a)
            + local_executor::keep_allowed(p, label, filters, alias, b)
            =~= local_executor::keep_allowed(p, label, filters, alias, a));
    } else {
        law_rows_that_the_index_allows_stay_in_order(
            p,
            label,
            filters,
            alias,
            a,
            b.drop_last(),
            row,
        );
        assert((a + b).drop_last() =~= a + b.drop_last());
        assert(local_executor::keep_allowed(p, label, filters, alias, a + b)
            =~= local_executor::keep_allowed(p, label, filters, alias, a)
            + local_executor::keep_allowed(p, label, filters, alias, b));
    }
}

/// Rows without the edge that must not be are kept one by one, in their
/// order.
pub proof fn law_rows_without_the_edge_stay_in_order(
    g: IndexGeneration,
    step: AntiJoinStepView,
    conditions: Seq<PropertyFilterView>,
    a: Seq<BindingView>,
    b: Seq<BindingView>,
    row: BindingView,
)
    ensures
        local_executor::survivors(g, step, conditions, a + b) == local_executor::survivors(
            g,
            step,
            conditions,
            a,
        ) + local_executor::survivors(g, step, conditions, b),
        local_executor::survivors(g, step, conditions, seq![row])
            == if local_executor::has_forbidden(g, step, conditions, row) {
            seq![]
        } else {
            seq![row]
        },
    decreases b.len(),
{
    reveal_with_fuel(local_executor::survivors, 2);
    assert(seq![row].drop_last() =~= Seq::<BindingView>::empty());
    assert(Seq::<BindingView>::empty().push(row) =~= seq![row]);
    if b.len() == 0 {
        assert(a + b =~= a);
        assert(local_executor::survivors(g, step, conditions, a) + local_executor::survivors(
            g,
            step,
            conditions,
            b,
        ) =~= local_executor::survivors(g, step, conditions, a));
    } else {
        law_rows_without_the_edge_stay_in_order(g, step, conditions, a, b.drop_last(), row);
        assert((a + b).drop_last() =~= a + b.drop_last());
        assert(local_executor::survivors(g, step, conditions, a + b)
            =~= local_executor::survivors(g, step, conditions, a) + local_executor::survivors(
            g,
            step,
            conditions,
            b,
        ));
    }
}

/// The nodes of a label come in the order of the index, each once for each
/// time that it stands there.
pub proof fn law_labelled_nodes_come_in_order(
    a: Seq<u64>,
    b: Seq<u64>,
    id: u64,
    records: Map<u64, NodeRecord>,
    label: Seq<char>,
)
    ensures
        local_executor::labelled(a + b, records, label) == local_executor::labelled(
            a,
            records,
            label,
        ) + local_executor::labelled(b, records, label),
        local_executor::labelled(seq![id], records, label) == if records.dom().contains(id)
            && records[id]@.label == label {
            seq![NodeId(id)]
        } else {
            seq![]
        },
    decreases b.len(),
{
    reveal_with_fuel(local_executor::labelled, 2);
    assert(seq![id].drop_last() =~= Seq::<u64>::empty());
    assert(Seq::<NodeId>::empty().push(NodeId(id)) =~= seq![NodeId(id)]);
    if b.len() == 0 {
        assert(a + b =~= a);
        assert(local_executor::labelled(a, records, label) + local_executor::labelled(
            b,
            records,
            label,
        ) =~= local_executor::labelled(a, records, label));
    } else {
        law_labelled_nodes_come_in_order(a, b.drop_last(), id, records, label);
        assert((a + b).drop_last() =~= a + b.drop_last());
        assert(local_executor::labelled(a + b, records, label) =~= local_executor::labelled(
            a,
            records,
            label,
        ) + local_executor::labelled(b, records, label));
    }
}

/// A start gives one row for each node, in the order of the nodes, in which
/// the alias and nothing else is bound.
pub proof fn law_a_start_binds_its_alias(alias: Seq<char>, ids: Seq<NodeId>, i: int)
    requires
        0 <= i < ids.len(),
    ensures
        local_executor::bind_all(alias, ids).len() == ids.len(),
        local_executor::bind_all(alias, ids)[i].nodes == map![alias => ids[i]],
        local_executor::bind_all(alias, ids)[i].edges.dom() == Set::<Seq<char>>::empty(),
{
    assert(local_executor::bind_all(alias, ids)[i].nodes =~= map![alias => ids[i]]);
    assert(local_executor::bind_all(alias, ids)[i].edges.dom() =~= Set::<Seq<char>>::empty());
}

/// Rows are followed over an edge one by one, in their order.
pub proof fn law_rows_are_followed_in_order(
    t: TopologicalIndex,
    step: ExpandHopView,
    a: Seq<BindingView>,
    b: Seq<BindingView>,
    row: BindingView,
)
    ensures
        local_executor::expand_rows(t, step, a + b).local == local_executor::expand_rows(
            t,
            step,
            a,
        ).local + local_executor::expand_rows(t, step, b).local,
        local_executor::expand_rows(t, step, a + b).remote == local_executor::expand_rows(
            t,
            step,
            a,
        ).remote + local_executor::expand_rows(t, step, b).remote,
        local_executor::expand_rows(t, step, seq![row]).local == local_executor::expand_row(
            t,
            step,
            row,
        ).local,
        local_executor::expand_rows(t, step, seq![row]).remote == local_executor::expand_row(
            t,
            step,
            row,
        ).remote,
    decreases b.len(),
{
    reveal_with_fuel(local_executor::expand_rows, 2);
    assert(seq![row].drop_last() =~= Seq::<BindingView>::empty());
    let one = local_executor::expand_row(t, step, row);
    assert(Seq::<BindingView>::empty() + one.local =~= one.local);
    assert(Seq::<(RemoteRef, BindingView)>::empty() + one.remote =~= one.remote);
    let x = local_executor::expand_rows(t, step, a);
    let y = local_executor::expand_rows(t, step, b);
    if b.len() == 0 {
        assert(a + b =~= a);
        assert(x.local + y.local =~= x.local);
        assert(x.remote + y.remote =~= x.remote);
    } else {
        law_rows_are_followed_in_order(t, step, a, b.drop_last(), row);
        assert((a + b).drop_last() =~= a + b.drop_last());
        let z = local_executor::expand_rows(t, step, a + b);
        assert(z.local =~= x.local + y.local);
        assert(z.remote =~= x.remote + y.remote);
    }
}

/// A row is followed over edges one by one, in their order: an edge of the
/// asked type gives one row, which binds its end and the edge itself, here or
/// beyond.
pub proof fn law_edges_are_followed_in_order(
    row: BindingView,
    step: ExpandHopView,
    a: Seq<AdjacencyEntryView>,
    b: Seq<AdjacencyEntryView>,
    e: AdjacencyEntryView,
)
    ensures
        local_executor::edge_rows(row, step, a + b) == local_executor::edge_rows(row, step, a)
            + local_executor::edge_rows(row, step, b),
        local_executor::edge_rows_beyond(row, step, a + b) == local_executor::edge_rows_beyond(
            row,
            step,
            a,
        ) + local_executor::edge_rows_beyond(row, step, b),
        local_executor::edge_rows(row, step, seq![e]).len() + local_executor::edge_rows_beyond(
            row,
            step,
            seq![e],
        ).len() <= 1,
        (step.edge_type matches Some(t) ==> e.edge_type == t) && e.dst_local is Some ==> (
        local_executor::edge_rows(row, step, seq![e]).len() == 1 && local_executor::edge_rows(
            row,
            step,
            seq![e],
        )[0].nodes == row.nodes.insert(step.to_alias, e.dst_local->Some_0)
            && local_executor::edge_rows(row, step, seq![e])[0].edges == row.edges.insert(
            step.edge_alias->Some_0,
            e.edge_id,
        )),
        !(step.edge_type matches Some(t) ==> e.edge_type == t) ==> local_executor::edge_rows(
            row,
            step,
            seq![e],
        ).len() == 0 && local_executor::edge_rows_beyond(row, step, seq![e]).len() == 0,
    decreases b.len(),
{
    reveal_with_fuel(local_executor::edge_rows, 2);
    reveal_with_fuel(local_executor::edge_rows_beyond, 2);
    assert(seq![e].drop_last() =~= Seq::<AdjacencyEntryView>::empty());
    let x = local_executor::edge_rows(row, step, a);
    let y = local_executor::edge_rows(row, step, b);
    let u = local_executor::edge_rows_beyond(row, step, a);
    let v = local_executor::edge_rows_beyond(row, step, b);
    if b.len() == 0 {
        assert(a + b =~= a);
        assert(x + y =~= x);
        assert(u + v =~= u);
    } else {
        law_edges_are_followed_in_order(row, step, a, b.drop_last(), e);
        assert((a + b).drop_last() =~= a + b.drop_last());
        assert(local_executor::edge_rows(row, step, a + b) =~= x + y);
        assert(local_executor::edge_rows_beyond(row, step, a + b) =~= u + v);
    }
}

/// A hop with filters fails on the first one that asks for what is not equal,
/// and on no other.
pub proof fn law_the_first_inequality_is_refused(filters: Seq<PropertyFilterView>) -> (i: int)
    ensures
        match local_executor::first_inequality(filters) {
            Some(p) => 0 <= i < filters.len() && filters[i].op == ComparisonOp::Ne
                && filters[i].property == p && forall|j: int|
                0 <= j < i ==> (#[trigger] filters[j]).op != ComparisonOp::Ne,
            None => forall|j: int|
                0 <= j < filters.len() ==> (#[trigger] filters[j]).op != ComparisonOp::Ne,
        },
    decreases filters.len(),
{
    if filters.len() == 0 {
        0
    } else if filters[0].op == ComparisonOp::Ne {
        0
    } else {
        let rest = filters.drop_first();
        let r: int = law_the_first_inequality_is_refused(rest);
        let n: int = match local_executor::first_inequality(filters) {
            Some(_) => r + 1,
            None => filters.len() as int,
        };
        assert forall|j: int| 0 <= j < n implies (#[trigger] filters[j]).op
            != ComparisonOp::Ne by {
            if j > 0 {
                assert(rest[j - 1].op != ComparisonOp::Ne);
            }
        }
        r + 1
    }
}

/// What partitions reply is gathered in the order in which they were asked,
/// and the first failure is the failure of all.
pub proof fn law_replies_are_gathered_in_order(
    a: Seq<Result<Seq<BindingView>, ExecutionErrorView>>,
    b: Seq<Result<Seq<BindingView>, ExecutionErrorView>>,
    rows: Seq<BindingView>,
    e: ExecutionErrorView,
)
    ensures
        distributed::gathered(seq![Ok(rows)]) == Ok::<Seq<BindingView>, ExecutionErrorView>(rows),
        distributed::gathered(seq![Err(e)]) == Err::<Seq<BindingView>, ExecutionErrorView>(e),
        distributed::gathered(a + b) == match (distributed::gathered(a), distributed::gathered(b)) {
            (Err(x), _) => Err::<Seq<BindingView>, ExecutionErrorView>(x),
            (Ok(_), Err(y)) => Err(y),
            (Ok(x), Ok(y)) => Ok(x + y),
        },
    decreases b.len(),
{
    reveal_with_fuel(distributed::gathered, 2);
    let good: Seq<Result<Seq<BindingView>, ExecutionErrorView>> = seq![Ok(rows)];
    let bad: Seq<Result<Seq<BindingView>, ExecutionErrorView>> = seq![Err(e)];
    assert(good.drop_last() =~= Seq::empty());
    assert(bad.drop_last() =~= Seq::empty());
    assert(Seq::<BindingView>::empty() + rows =~= rows);
    if b.len() == 0 {
        assert(a + b =~= a);
        if let Ok(x) = distributed::gathered(a) {
            assert(x + Seq::<BindingView>::empty() =~= x);
        }
    } else {
        law_replies_are_gathered_in_order(a, b.drop_last(), rows, e);
        assert((a + b).drop_last() =~= a + b.drop_last());
        if let (Ok(x), Ok(y), Ok(z)) = (
            distributed::gathered(a),
            distributed::gathered(b.drop_last()),
            b.last(),
        ) {
            assert((x + y) + z =~= x + (y + z));
        }
    }
}

/// A group holds its items one by one, in their order.
pub proof fn law_groups_keep_the_order<T, K>(
    a: Seq<T>,
    b: Seq<T>,
    ka: Seq<K>,
    kb: Seq<K>,
    x: T,
    kx: K,
    k: K,
)
    requires
        a.len() == ka.len(),
        b.len() == kb.len(),
    ensures
        routing::members(a + b, ka + kb, k) == routing::members(a, ka, k) + routing::members(
            b,
            kb,
            k,
        ),
        routing::members(seq![x], seq![kx], k) == if kx == k {
            seq![x]
        } else {
            seq![]
        },
    decreases b.len(),
{
    reveal_with_fuel(routing::members, 2);
    assert(seq![x].drop_last() =~= Seq::<T>::empty());
    assert(Seq::<T>::empty().push(x) =~= seq![x]);
    if b.len() == 0 {
        assert(a + b =~= a);
        assert(ka + kb =~= ka);
        assert(routing::members(a, ka, k) + routing::members(b, kb, k) =~= routing::members(
            a,
            ka,
            k,
        ));
    } else {
        law_groups_keep_the_order(a, b.drop_last(), ka, kb.drop_last(), x, kx, k);
        assert((a + b).drop_last() =~= a + b.drop_last());
        assert((ka + kb).drop_last() =~= ka + kb.drop_last());
        assert(routing::members(a + b, ka + kb, k) =~= routing::members(a, ka, k)
            + routing::members(b, kb, k));
    }
}

/// What is added to items comes behind them, each of it once, in its order:
/// items stay where they are, nothing comes twice, and what the first of the
/// added items gave stays when more are added.
pub proof fn law_what_is_new_comes_behind<T>(items: Seq<T>, more: Seq<T>, n: int, y: T)
    requires
        0 <= n <= more.len(),
    ensures
        items.is_prefix_of(walk::union_new(items, more)),
        walk::union_new(items, more.take(n)).is_prefix_of(walk::union_new(items, more)),
        walk::union_new(items, more).contains(y) <==> items.contains(y) || more.contains(y),
        items.no_duplicates() ==> walk::union_new(items, more).no_duplicates(),
    decreases more.len(),
{
    walk::lemma_union_new(items, more, y);
    let all = walk::union_new(items, more);
    if n == more.len() {
        assert(more.take(n) =~= more);
        assert(all.is_prefix_of(all));
    }
    if more.len() > 0 {
        let shorter = more.drop_last();
        let before = walk::union_new(items, shorter);
        let m: int = if n < more.len() {
            n
        } else {
            shorter.len() as int
        };
        law_what_is_new_comes_behind(items, shorter, m, y);
        assert(shorter.take(m) =~= more.take(m));
        assert(before.is_prefix_of(all));
    }
}

/// Of the nodes that are fetched, the last record with an id counts; an id that
/// none of them has keeps what was known of it.
pub proof fn law_the_last_record_of_a_node_counts(
    m: Map<u64, NodeRecordView>,
    more: Seq<(NodeId, NodeRecordView)>,
    id: u64,
    i: int,
)
    requires
        -1 <= i < more.len(),
        i >= 0 ==> more[i].0.0 == id,
        forall|k: int| i < k < more.len() ==> (#[trigger] more[k]).0.0 != id,
    ensures
        i >= 0 ==> distributed::with_nodes(m, more).contains_pair(id, more[i].1),
        i == -1 ==> (distributed::with_nodes(m, more).dom().contains(id) <==> m.dom().contains(id)),
        i == -1 && m.dom().contains(id) ==> distributed::with_nodes(m, more)[id] == m[id],
    decreases more.len(),
{
    if more.len() > 0 {
        let shorter = more.drop_last();
        let last = more.len() - 1;
        assert(more[last] == more.last());
        if i < last {
            assert(more[last].0.0 != id);
            assert forall|k: int| i < k < shorter.len() implies (#[trigger] shorter[k]).0.0
                != id by {
                assert(more[k].0.0 != id);
            }
            law_the_last_record_of_a_node_counts(m, shorter, id, i);
        }
    }
}

/// Of the edges that are fetched, the last record with an id counts; an id that
/// none of them has keeps what was known of it.
pub proof fn law_the_last_record_of_an_edge_counts(
    m: Map<u64, EdgeRecordView>,
    more: Seq<(EdgeId, EdgeRecordView)>,
    id: u64,
    i: int,
)
    requires
        -1 <= i < more.len(),
        i >= 0 ==> more[i].0.0 == id,
        forall|k: int| i < k < more.len() ==> (#[trigger] more[k]).0.0 != id,
    ensures
        i >= 0 ==> distributed::with_edges(m, more).contains_pair(id, more[i].1),
        i == -1 ==> (distributed::with_edges(m, more).dom().contains(id) <==> m.dom().contains(id)),
        i == -1 && m.dom().contains(id) ==> distributed::with_edges(m, more)[id] == m[id],
    decreases more.len(),
{
    if more.len() > 0 {
        let shorter = more.drop_last();
        let last = more.len() - 1;
        assert(more[last] == more.last());
        if i < last {
            assert(more[last].0.0 != id);
            assert forall|k: int| i < k < shorter.len() implies (#[trigger] shorter[k]).0.0
                != id by {
                assert(more[k].0.0 != id);
            }
            law_the_last_record_of_an_edge_counts(m, shorter, id, i);
        }
    }
}

} // verus!
