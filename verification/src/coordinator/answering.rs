//! What a client gets for a query: the rows that answer it in the graph, in the
//! order and up to the limit that it asks for, and of each row what it returns.
use crate::cluster::PartitionMap;
use crate::coordinator::ordering;
use crate::coordinator::projection;
use crate::coordinator::projection::QueryResultView;
use crate::coordinator::service;
use crate::coordinator::service::{AnswerRun, PreparedQueryView, QueryFailureView};
use crate::dsl::faults;
use crate::dsl::validator;
use crate::dsl::{OrderByView, QueryView, ReturnItemView, SortDirection};
use crate::index::builder::{ScannedEdgeView, ScannedNodeView};
use crate::index::IndexGeneration;
use crate::query::agreement;
use crate::query::answers;
use crate::query::comparing;
use crate::query::distributed;
use crate::query::distributed::{Fetched, PartitionRpc};
use crate::query::hydration;
use crate::query::hydration::RecordsView;
use crate::query::meaning;
use crate::query::planner;
use crate::query::whole_plan;
use crate::query::BindingView;
use crate::schema::SchemaView;
use crate::storage::PropertyValueView;
use crate::wire;
use crate::wire::KindView;
use vstd::prelude::*;

verus! {

/// That an item of a query is shown as `kind` of a row, by what the graph has.
pub open spec fn is_shown(
    nodes: Seq<ScannedNodeView>,
    edges: Seq<ScannedEdgeView>,
    row: BindingView,
    item: ReturnItemView,
    kind: KindView,
) -> bool {
    match item.property {
        Some(property) => exists|v: PropertyValueView| #[trigger]
            answers::row_has(nodes, edges, row, item.alias, property, v) && projection::shown(v)
                == Some(kind),
        None => kind matches KindView::Int64Value(x) && (if row.nodes.dom().contains(item.alias) {
            x == (row.nodes[item.alias].0 as i64)
        } else {
            row.edges.dom().contains(item.alias) && x == (row.edges[item.alias].0 as i64)
        }),
    }
}

/// That one of the items has a name, and is shown as `kind`.
pub open spec fn is_shown_under(
    nodes: Seq<ScannedNodeView>,
    edges: Seq<ScannedEdgeView>,
    row: BindingView,
    items: Seq<ReturnItemView>,
    name: Seq<char>,
    kind: KindView,
) -> bool {
    exists|i: int|
        0 <= i < items.len() && projection::item_name(#[trigger] items[i]) == name && is_shown(
            nodes,
            edges,
            row,
            items[i],
            kind,
        )
}

/// That a result is what a query returns of a row: under the name of each item
/// what the graph has, and nothing else.
pub open spec fn is_returned(
    nodes: Seq<ScannedNodeView>,
    edges: Seq<ScannedEdgeView>,
    row: BindingView,
    items: Seq<ReturnItemView>,
    r: QueryResultView,
) -> bool {
    forall|name: Seq<char>, kind: KindView|
        r.projection.dom().contains(name) && r.projection[name] == Some(kind)
            <==> #[trigger] is_shown_under(nodes, edges, row, items, name, kind)
}

/// That one value may come before another one in ascending order.
pub open spec fn may_precede(a: PropertyValueView, b: PropertyValueView) -> bool {
    match (a, b) {
        (PropertyValueView::Int64(x), PropertyValueView::Int64(y)) => x <= y,
        (PropertyValueView::Timestamp(x), PropertyValueView::Timestamp(y)) => x <= y,
        (PropertyValueView::Bool(x), PropertyValueView::Bool(y)) => !(x && !y),
        (PropertyValueView::String(x), PropertyValueView::String(y)) => !comparing::text_less(y, x),
        (PropertyValueView::Float64(x), PropertyValueView::Float64(y)) => comparing::is_number(x)
            && comparing::is_number(y) ==> !comparing::double_less(y, x),
        _ => true,
    }
}

/// That one row may come before another one in the order of a query.
pub open spec fn row_may_precede(
    nodes: Seq<ScannedNodeView>,
    edges: Seq<ScannedEdgeView>,
    o: OrderByView,
    first: BindingView,
    second: BindingView,
) -> bool {
    forall|a: PropertyValueView, b: PropertyValueView| #[trigger]
        answers::row_has(nodes, edges, first, o.alias, o.property, a) && #[trigger] answers::row_has(
            nodes,
            edges,
            second,
            o.alias,
            o.property,
            b,
        ) ==> match o.direction {
            SortDirection::Asc => may_precede(a, b),
            SortDirection::Desc => may_precede(b, a),
        }
}

/// That rows are what a query asks for: answers, none twice; all of them, or as
/// many as the limit allows; in the order asked for, with none left out that
/// would have to come before one of them.
pub open spec fn are_asked_for(
    q: QueryView,
    nodes: Seq<ScannedNodeView>,
    edges: Seq<ScannedEdgeView>,
    rows: Seq<BindingView>,
) -> bool {
    &&& rows.no_duplicates()
    &&& forall|row: BindingView| #[trigger]
        rows.contains(row) ==> answers::is_answer(q, nodes, edges, row)
    &&& q.limit matches Some(n) ==> rows.len() <= n
    &&& (q.limit matches Some(n) && rows.len() == n) || forall|row: BindingView|
        answers::is_answer(q, nodes, edges, row) ==> #[trigger] rows.contains(row)
    &&& q.order_by matches Some(o) ==> forall|i: int, j: int|
        0 <= i < j < rows.len() ==> row_may_precede(
            nodes,
            edges,
            o,
            #[trigger] rows[i],
            #[trigger] rows[j],
        )
    &&& q.order_by matches Some(o) ==> forall|i: int, row: BindingView|
        0 <= i < rows.len() && answers::is_answer(q, nodes, edges, row) && !(
        #[trigger] rows.contains(row)) ==> row_may_precede(
            nodes,
            edges,
            o,
            #[trigger] rows[i],
            row,
        )
}

/// A query that is ready to be executed, of one that was read.
pub open spec fn prepared(q: QueryView) -> PreparedQueryView {
    PreparedQueryView { plan: planner::plan_of(q), order_by: q.order_by, limit: q.limit }
}

/// Values that are shown, and those that have an order, are fetched as they
/// are.
proof fn lemma_fetched(
    g: IndexGeneration,
    s: SchemaView,
    nodes: Seq<ScannedNodeView>,
    edges: Seq<ScannedEdgeView>,
    row: BindingView,
    alias: Seq<char>,
    property: Seq<char>,
    records: RecordsView,
    v: PropertyValueView,
)
    requires
        agreement::holds_all(g, s, nodes, edges),
        agreement::unique_edges(edges),
        crate::query::matches::unique_nodes(nodes),
        whole_plan::agree(row, alias, records, whole_plan::records_of(g)),
        !(v is List),
        !(v is Null),
    ensures
        comparing::gives(row, alias, property, records, v) <==> answers::row_has(
            nodes,
            edges,
            row,
            alias,
            property,
            v,
        ),
{
    meaning::lemma_records(g, s, nodes, edges);
    answers::lemma_row_has(nodes, edges, row, alias, property, v);
    let whole = meaning::graph_records(nodes, edges);
    if let Some(y) = hydration::properties_of(row, alias, whole) {
        wire::law_records_arrive_but_for_lists_and_nulls(y);
    }
}

/// Rows that are sorted keep what they are.
proof fn lemma_sorted_rows(rows: Seq<BindingView>, o: OrderByView, records: RecordsView)
    requires
        rows.no_duplicates(),
    ensures
        ordering::ordered_rows(rows, o, records).no_duplicates(),
        forall|row: BindingView| #[trigger]
            ordering::ordered_rows(rows, o, records).contains(row) <==> rows.contains(row),
{
    let sorted = ordering::ordered_rows(rows, o, records);
    ordering::law_sorted_rows_are_in_order(rows, o, records);
    rows.lemma_multiset_has_no_duplicates();
    sorted.lemma_multiset_has_no_duplicates_conv();
    assert forall|row: BindingView| #[trigger] sorted.contains(row) <==> rows.contains(row) by {
        vstd::seq_lib::to_multiset_contains(rows, row);
        vstd::seq_lib::to_multiset_contains(sorted, row);
    }
}

/// Sorted rows may come in the order in which they are.
proof fn lemma_in_order(
    g: IndexGeneration,
    s: SchemaView,
    nodes: Seq<ScannedNodeView>,
    edges: Seq<ScannedEdgeView>,
    rows: Seq<BindingView>,
    o: OrderByView,
    records: RecordsView,
    i: int,
    j: int,
)
    requires
        agreement::holds_all(g, s, nodes, edges),
        agreement::unique_edges(edges),
        crate::query::matches::unique_nodes(nodes),
        rows.no_duplicates(),
        forall|k: int|
            0 <= k < rows.len() ==> whole_plan::agree(
                #[trigger] rows[k],
                o.alias,
                records,
                whole_plan::records_of(g),
            ),
        0 <= i < j < ordering::ordered_rows(rows, o, records).len(),
    ensures
        row_may_precede(
            nodes,
            edges,
            o,
            ordering::ordered_rows(rows, o, records)[i],
            ordering::ordered_rows(rows, o, records)[j],
        ),
{
    let sorted = ordering::ordered_rows(rows, o, records);
    lemma_sorted_rows(rows, o, records);
    let (x, y) = (sorted[i], sorted[j]);
    assert(sorted.contains(x) && sorted.contains(y));
    let m = choose|m: int| 0 <= m < rows.len() && rows[m] == x;
    let n = choose|n: int| 0 <= n < rows.len() && rows[n] == y;
    assert(whole_plan::agree(rows[m], o.alias, records, whole_plan::records_of(g)));
    assert(whole_plan::agree(rows[n], o.alias, records, whole_plan::records_of(g)));
    assert forall|a: PropertyValueView, b: PropertyValueView| #[trigger]
        answers::row_has(nodes, edges, x, o.alias, o.property, a) && #[trigger] answers::row_has(
            nodes,
            edges,
            y,
            o.alias,
            o.property,
            b,
        ) implies match o.direction {
        SortDirection::Asc => may_precede(a, b),
        SortDirection::Desc => may_precede(b, a),
    } by {
        if !(a is List) && !(a is Null) && !(b is List) && !(b is Null) {
            lemma_fetched(g, s, nodes, edges, x, o.alias, o.property, records, a);
            lemma_fetched(g, s, nodes, edges, y, o.alias, o.property, records, b);
            ordering::law_smaller_values_come_first(rows, o, records, i, j, a, b);
        }
    }
}

/// What is projected of a row is what the graph has.
proof fn lemma_returned(
    g: IndexGeneration,
    s: SchemaView,
    nodes: Seq<ScannedNodeView>,
    edges: Seq<ScannedEdgeView>,
    row: BindingView,
    items: Seq<ReturnItemView>,
    records: RecordsView,
)
    requires
        agreement::holds_all(g, s, nodes, edges),
        agreement::unique_edges(edges),
        crate::query::matches::unique_nodes(nodes),
        forall|i: int, j: int|
            0 <= i < items.len() && 0 <= j < items.len() && projection::item_name(
                #[trigger] items[i],
            ) == projection::item_name(#[trigger] items[j]) ==> items[i] == items[j],
        forall|a: int|
            0 <= a < items.len() ==> whole_plan::agree(
                row,
                (#[trigger] items[a]).alias,
                records,
                whole_plan::records_of(g),
            ),
    ensures
        is_returned(nodes, edges, row, items, projection::projected(row, items, records)),
{
    let r = projection::projected(row, items, records);
    assert forall|name: Seq<char>, kind: KindView|
        r.projection.dom().contains(name) && r.projection[name] == Some(kind)
            <==> #[trigger] is_shown_under(nodes, edges, row, items, name, kind) by {
        projection::law_a_row_is_projected_to_what_is_shown(row, items, records, name, kind);
        assert forall|i: int| 0 <= i < items.len() implies (is_shown(
            nodes,
            edges,
            row,
            #[trigger] items[i],
            kind,
        ) <==> projection::shows(items[i], row, records, kind)) by {
            let item = items[i];
            if let Some(property) = item.property {
                if is_shown(nodes, edges, row, item, kind) {
                    let v = choose|v: PropertyValueView| #[trigger]
                        answers::row_has(nodes, edges, row, item.alias, property, v)
                            && projection::shown(v) == Some(kind);
                    lemma_fetched(g, s, nodes, edges, row, item.alias, property, records, v);
                    assert(comparing::gives(row, item.alias, property, records, v));
                }
                if projection::shows(item, row, records, kind) {
                    let v = choose|v: PropertyValueView| #[trigger]
                        comparing::gives(row, item.alias, property, records, v)
                            && projection::shown(v) == Some(kind);
                    lemma_fetched(g, s, nodes, edges, row, item.alias, property, records, v);
                    assert(answers::row_has(nodes, edges, row, item.alias, property, v));
                }
            }
        }
    }
}

/// A client gets for a valid query one result for each of the rows that it asks
/// for, and each result is what the query returns of its row, whatever was
/// asked and answered on the way, as long as the replicas answer from the
/// indexes of their partitions.
pub proof fn law_a_query_is_answered_as_asked<R: PartitionRpc>(
    rpc: R,
    map: PartitionMap,
    g: IndexGeneration,
    gs: Seq<IndexGeneration>,
    s: SchemaView,
    nodes: Seq<ScannedNodeView>,
    edges: Seq<ScannedEdgeView>,
    q: QueryView,
    run: AnswerRun,
) -> (rows: Seq<BindingView>)
    requires
        agreement::holds_all(g, s, nodes, edges),
        agreement::divides(gs, s, nodes, edges),
        agreement::no_dangling(nodes, edges),
        agreement::unique_edges(edges),
        crate::query::matches::unique_nodes(nodes),
        whole_plan::all_serve(rpc, map, gs),
        planner::plannable(q),
        validator::query_errors(q, s).len() == 0,
        whole_plan::well_named(q),
        crate::query::matches::start_is_indexed(q, s),
        forall|i: int, j: int|
            0 <= i < q.returns.len() && 0 <= j < q.returns.len() && projection::item_name(
                #[trigger] q.returns[i],
            ) == projection::item_name(#[trigger] q.returns[j]) ==> q.returns[i] == q.returns[j],
        service::asked_answer(rpc, map, gs.len() as u32, prepared(q), run),
    ensures
        are_asked_for(q, nodes, edges, rows),
        service::answer_outcome(map, gs.len() as u32, prepared(q), run) is Ok,
        (service::answer_outcome(map, gs.len() as u32, prepared(q), run)->Ok_0).len() == rows.len(),
        forall|i: int|
            0 <= i < rows.len() ==> is_returned(
                nodes,
                edges,
                #[trigger] rows[i],
                q.returns,
                (service::answer_outcome(map, gs.len() as u32, prepared(q), run)->Ok_0)[i],
            ),
{
    let n = gs.len() as u32;
    let plan = planner::plan_of(q);
    let steps = plan.steps;
    let last = (steps.len() - 1) as nat;
    whole_plan::law_plans_of_valid_queries_are_chained(q, s);
    whole_plan::law_a_plan_is_the_same_divided_or_not(
        rpc,
        map,
        g,
        gs,
        s,
        nodes,
        edges,
        plan,
        run.plan,
    );
    let found = distributed::plan_outcome(map, n, plan, run.plan)->Ok_0;
    assert forall|row: BindingView| #[trigger] found.contains(row) <==> answers::is_answer(
        q,
        nodes,
        edges,
        row,
    ) by {
        answers::law_a_cluster_answers_with_the_answers(
            rpc,
            map,
            g,
            gs,
            s,
            nodes,
            edges,
            q,
            run.plan,
            row,
        );
    }
    assert forall|row: BindingView| #[trigger] found.contains(row) implies whole_plan::sound(
        steps,
        edges,
        last,
        row,
    ) by {
        assert(whole_plan::plan_on(g, plan).contains(row));
        whole_plan::lemma_keep_meeting(
            whole_plan::rows_on(g, steps, last),
            plan.remaining,
            whole_plan::records_of(g),
            row,
        );
        whole_plan::lemma_rows_are_sound(g, s, nodes, edges, steps, last, row);
    }
    assert forall|i: int| 0 <= i < found.len() implies whole_plan::sound(
        steps,
        edges,
        last,
        #[trigger] found[i],
    ) by {
        assert(found.contains(found[i]));
    }
    let sorted = match q.order_by {
        None => found,
        Some(o) => ordering::ordered_rows(
            found,
            o,
            distributed::gathered_records(run.sort)->Ok_0,
        ),
    };
    if let Some(o) = q.order_by {
        let aliases = seq![o.alias];
        whole_plan::lemma_records_agree(
            rpc,
            map,
            g,
            gs,
            s,
            nodes,
            edges,
            steps,
            last,
            found,
            aliases,
            run.sort,
        );
        let records = distributed::gathered_records(run.sort)->Ok_0;
        lemma_sorted_rows(found, o, records);
        assert forall|k: int| 0 <= k < found.len() implies whole_plan::agree(
            #[trigger] found[k],
            o.alias,
            records,
            whole_plan::records_of(g),
        ) by {
            assert(aliases[0] == o.alias);
            assert(whole_plan::agree(found[k], aliases[0], records, whole_plan::records_of(g)));
        }
        assert forall|i: int, j: int| 0 <= i < j < sorted.len() implies row_may_precede(
            nodes,
            edges,
            o,
            #[trigger] sorted[i],
            #[trigger] sorted[j],
        ) by {
            lemma_in_order(g, s, nodes, edges, found, o, records, i, j);
        }
    }
    assert(service::sort_outcome(found, q.order_by, run.sort) == Ok::<
        Seq<BindingView>,
        crate::query::ExecutionErrorView,
    >(sorted));
    let rows = ordering::limited(sorted, q.limit);
    ordering::law_a_limit_keeps_the_first(sorted, q.limit);
    assert forall|i: int| 0 <= i < rows.len() implies whole_plan::sound(
        steps,
        edges,
        last,
        #[trigger] rows[i],
    ) by {
        assert(rows[i] == sorted[i]);
        assert(sorted.contains(sorted[i]));
        assert(found.contains(rows[i]));
    }
    let aliases = projection::item_aliases(q.returns);
    whole_plan::lemma_records_agree(
        rpc,
        map,
        g,
        gs,
        s,
        nodes,
        edges,
        steps,
        last,
        rows,
        aliases,
        run.last,
    );
    let records = distributed::gathered_records(run.last)->Ok_0;
    assert forall|i: int| 0 <= i < rows.len() implies is_returned(
        nodes,
        edges,
        #[trigger] rows[i],
        q.returns,
        projection::projected(rows[i], q.returns, records),
    ) by {
        assert forall|a: int| 0 <= a < q.returns.len() implies whole_plan::agree(
            rows[i],
            (#[trigger] q.returns[a]).alias,
            records,
            whole_plan::records_of(g),
        ) by {
            assert(aliases[a] == q.returns[a].alias);
            assert(whole_plan::agree(rows[i], aliases[a], records, whole_plan::records_of(g)));
        }
        lemma_returned(g, s, nodes, edges, rows[i], q.returns, records);
    }
    lemma_cut(q, nodes, edges, sorted, rows);
    rows
}

/// The first of all answers in their order, as many as the limit allows, are
/// what is asked for.
proof fn lemma_cut(
    q: QueryView,
    nodes: Seq<ScannedNodeView>,
    edges: Seq<ScannedEdgeView>,
    sorted: Seq<BindingView>,
    rows: Seq<BindingView>,
)
    requires
        sorted.no_duplicates(),
        forall|row: BindingView| #[trigger]
            sorted.contains(row) <==> answers::is_answer(q, nodes, edges, row),
        q.order_by matches Some(o) ==> forall|i: int, j: int|
            0 <= i < j < sorted.len() ==> row_may_precede(
                nodes,
                edges,
                o,
                #[trigger] sorted[i],
                #[trigger] sorted[j],
            ),
        rows == ordering::limited(sorted, q.limit),
    ensures
        are_asked_for(q, nodes, edges, rows),
{
    ordering::law_a_limit_keeps_the_first(sorted, q.limit);
    assert forall|row: BindingView| #[trigger] rows.contains(row) implies answers::is_answer(
        q,
        nodes,
        edges,
        row,
    ) by {
        let i = choose|i: int| 0 <= i < rows.len() && rows[i] == row;
        assert(sorted[i] == row);
        assert(sorted.contains(row));
    }
    if !(q.limit matches Some(n) && rows.len() == n) {
        assert(rows =~= sorted);
    }
    if let Some(o) = q.order_by {
        assert forall|i: int, j: int| 0 <= i < j < rows.len() implies row_may_precede(
            nodes,
            edges,
            o,
            #[trigger] rows[i],
            #[trigger] rows[j],
        ) by {
            assert(rows[i] == sorted[i] && rows[j] == sorted[j]);
        }
        assert forall|i: int, row: BindingView|
            0 <= i < rows.len() && answers::is_answer(q, nodes, edges, row) && !(
            #[trigger] rows.contains(row)) implies row_may_precede(
            nodes,
            edges,
            o,
            #[trigger] rows[i],
            row,
        ) by {
            assert(sorted.contains(row));
            let j = choose|j: int| 0 <= j < sorted.len() && sorted[j] == row;
            if j < rows.len() {
                assert(rows[j] == row);
            }
            assert(rows[i] == sorted[i]);
        }
    }
}

/// A query without a fault is prepared as it was read: with its plan, its order
/// and its limit. One with a fault is refused as invalid.
pub proof fn law_queries_are_prepared_as_read(q: QueryView, s: SchemaView)
    ensures
        (forall|fault: validator::ValidationErrorView| !(#[trigger] faults::is_fault(q, s, fault)))
            ==> service::prepare_outcome(q, s) == Ok::<PreparedQueryView, QueryFailureView>(
            prepared(q),
        ),
        (exists|fault: validator::ValidationErrorView| #[trigger] faults::is_fault(q, s, fault))
            ==> (service::prepare_outcome(q, s) matches Err(e) && e.stage
            == service::Stage::Validate && e.status.code == wire::Code::InvalidArgument),
{
    faults::law_valid_queries_have_no_fault(q, s);
}

} // verus!
