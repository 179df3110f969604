//! What a client gets of a row: the items of a `RETURN` clause.
use crate::coordinator::ordering;
use crate::dsl::{ReturnItem, ReturnItemView};
use crate::index::{EdgeRecordView, NodeRecordView};
use crate::maps;
use crate::maps::NamedMap;
use crate::query::comparing;
use crate::query::hydration::{Records, RecordsView};
use crate::query::{Binding, BindingView};
use crate::storage::PropertyValueView;
use crate::text;
use crate::wire;
use crate::wire::{
    EdgeProperties, FieldsView, Kind, KindView, NodeProperties, Value,
};
use vstd::prelude::*;
use vstd::string::*;

verus! {

/// One row of a result. A whole node or edge is projected to its id, and its
/// record goes along; a property is projected to its value, under
/// `alias.property`.
#[derive(Debug)]
pub struct QueryResult {
    pub projection: NamedMap<Value>,
    pub properties: NamedMap<NodeProperties>,
    pub edge_properties: NamedMap<EdgeProperties>,
}

pub struct QueryResultView {
    pub projection: Map<Seq<char>, Option<KindView>>,
    pub properties: Map<Seq<char>, FieldsView>,
    pub edge_properties: Map<Seq<char>, FieldsView>,
}

impl View for QueryResult {
    type V = QueryResultView;

    open spec fn view(&self) -> QueryResultView {
        QueryResultView {
            projection: maps::value_views(self.projection@),
            properties: maps::value_views(self.properties@),
            edge_properties: maps::value_views(self.edge_properties@),
        }
    }
}

/// An id on the wire, which has no unsigned numbers: the same 64 bits.
pub open spec fn sent_id(id: u64) -> Option<KindView> {
    Some(KindView::Int64Value(#[verifier::truncate] (id as i64)))
}

pub open spec fn node_fields(record: NodeRecordView) -> FieldsView {
    FieldsView { name: record.label, fields: wire::sent_fields(record.properties) }
}

pub open spec fn edge_fields(record: EdgeRecordView) -> FieldsView {
    FieldsView { name: record.edge_type, fields: wire::sent_fields(record.properties) }
}

/// The name of a projected property.
pub open spec fn property_name(alias: Seq<char>, property: Seq<char>) -> Seq<char> {
    alias + "."@ + property
}

/// A result with one more item projected. What a row does not bind, and
/// values that cannot be sent, are left out.
pub open spec fn with_item(
    r: QueryResultView,
    item: ReturnItemView,
    b: BindingView,
    records: RecordsView,
) -> QueryResultView {
    match item.property {
        Some(property) => match ordering::property_value(b, item.alias, property, records) {
            Some(v) => if wire::sent_value(v) is Some {
                QueryResultView {
                    projection: r.projection.insert(
                        property_name(item.alias, property),
                        wire::sent_value(v),
                    ),
                    ..r
                }
            } else {
                r
            },
            None => r,
        },
        None => if b.nodes.dom().contains(item.alias) {
            let id = b.nodes[item.alias].0;
            QueryResultView {
                projection: r.projection.insert(item.alias, sent_id(id)),
                properties: if records.nodes.dom().contains(id) {
                    r.properties.insert(item.alias, node_fields(records.nodes[id]))
                } else {
                    r.properties
                },
                edge_properties: r.edge_properties,
            }
        } else if b.edges.dom().contains(item.alias) {
            let id = b.edges[item.alias].0;
            QueryResultView {
                projection: r.projection.insert(item.alias, sent_id(id)),
                properties: r.properties,
                edge_properties: if records.edges.dom().contains(id) {
                    r.edge_properties.insert(item.alias, edge_fields(records.edges[id]))
                } else {
                    r.edge_properties
                },
            }
        } else {
            r
        },
    }
}

/// The projection of a row.
pub open spec fn projected(b: BindingView, items: Seq<ReturnItemView>, records: RecordsView) -> QueryResultView
    decreases items.len(),
{
    if items.len() == 0 {
        QueryResultView {
            projection: Map::empty(),
            properties: Map::empty(),
            edge_properties: Map::empty(),
        }
    } else {
        with_item(projected(b, items.drop_last(), records), items.last(), b, records)
    }
}

/// The projections of rows.
pub open spec fn projected_all(
    rows: Seq<BindingView>,
    items: Seq<ReturnItemView>,
    records: RecordsView,
) -> Seq<QueryResultView> {
    Seq::new(rows.len(), |i: int| projected(rows[i], items, records))
}

/// The aliases of items.
pub open spec fn item_aliases(items: Seq<ReturnItemView>) -> Seq<Seq<char>> {
    Seq::new(items.len(), |i: int| items[i].alias)
}

pub fn aliases_of_items(items: &Vec<ReturnItem>) -> (r: Vec<String>)
    ensures
        text::views(r@) == item_aliases(text::views(items@)),
{
    let mut out: Vec<String> = Vec::new();
    let mut i: usize = 0;
    while i < items.len()
        invariant
            i <= items@.len(),
            out@.len() == i,
            forall|k: int| 0 <= k < i ==> (#[trigger] out@[k])@ == items@[k].alias@,
        decreases items.len() - i,
    {
        out.push(items[i].alias.clone());
        i = i + 1;
    }
    assert(text::views(out@) =~= item_aliases(text::views(items@)));
    out
}

proof fn lemma_value_views_insert<V: View>(m: Map<Seq<char>, V>, name: Seq<char>, v: V)
    ensures
        maps::value_views(m.insert(name, v)) == maps::value_views(m).insert(name, v@),
{
    assert(maps::value_views(m.insert(name, v)) =~= maps::value_views(m).insert(name, v@));
}

fn id_value(id: u64) -> (r: Value)
    ensures
        r@ == sent_id(id),
{
    Value { kind: Some(Kind::Int64Value(#[verifier::truncate] (id as i64))) }
}

fn add_item(r: &mut QueryResult, item: &ReturnItem, b: &Binding, records: &Records)
    requires
        records.wf(),
    ensures
        final(r)@ == with_item(old(r)@, item@, b@, records@),
{
    let ghost before = *r;
    match &item.property {
        Some(property) => {
            match ordering::find_value(b, item.alias.as_str(), property.as_str(), records) {
                Some(v) => match wire::property_value_to_proto(v) {
                    Some(value) => {
                        let mut name: String = item.alias.clone();
                        name.append(".");
                        name.append(property.as_str());
                        proof {
                            lemma_value_views_insert(before.projection@, name@, value);
                        }
                        r.projection.insert(name, value);
                    },
                    None => {},
                },
                None => {},
            }
        },
        None => {
            match b.nodes.get(item.alias.as_str()) {
                Some(node) => {
                    let value = id_value(node.0);
                    proof {
                        lemma_value_views_insert(before.projection@, item.alias@, value);
                    }
                    r.projection.insert(item.alias.clone(), value);
                    match records.nodes.get(node.0) {
                        Some(record) => {
                            let properties = wire::node_record_to_proto(record);
                            proof {
                                lemma_value_views_insert(
                                    before.properties@,
                                    item.alias@,
                                    properties,
                                );
                            }
                            r.properties.insert(item.alias.clone(), properties);
                        },
                        None => {},
                    }
                },
                None => match b.edges.get(item.alias.as_str()) {
                    Some(edge) => {
                        let value = id_value(edge.0);
                        proof {
                            lemma_value_views_insert(before.projection@, item.alias@, value);
                        }
                        r.projection.insert(item.alias.clone(), value);
                        match records.edges.get(edge.0) {
                            Some(record) => {
                                let properties = wire::edge_record_to_proto(record);
                                proof {
                                    lemma_value_views_insert(
                                        before.edge_properties@,
                                        item.alias@,
                                        properties,
                                    );
                                }
                                r.edge_properties.insert(item.alias.clone(), properties);
                            },
                            None => {},
                        }
                    },
                    None => {},
                },
            }
        },
    }
}

/// Projects a row.
pub fn project_row(b: &Binding, items: &Vec<ReturnItem>, records: &Records) -> (r: QueryResult)
    requires
        records.wf(),
    ensures
        r@ == projected(b@, text::views(items@), records@),
{
    let ghost all = text::views(items@);
    let mut out = QueryResult {
        projection: NamedMap::new(),
        properties: NamedMap::new(),
        edge_properties: NamedMap::new(),
    };
    let mut i: usize = 0;
    proof {
        assert(all.take(0) =~= Seq::<ReturnItemView>::empty());
        assert(out@.projection =~= Map::<Seq<char>, Option<KindView>>::empty());
        assert(out@.properties =~= Map::<Seq<char>, FieldsView>::empty());
        assert(out@.edge_properties =~= Map::<Seq<char>, FieldsView>::empty());
    }
    while i < items.len()
        invariant
            i <= items@.len(),
            records.wf(),
            all == text::views(items@),
            out@ == projected(b@, all.take(i as int), records@),
        decreases items.len() - i,
    {
        proof {
            assert(all.take(i + 1).drop_last() =~= all.take(i as int));
            assert(all.take(i + 1).last() == items@[i as int]@);
        }
        add_item(&mut out, &items[i], b, records);
        i = i + 1;
    }
    assert(all.take(all.len() as int) =~= all);
    out
}

/// Projects rows.
pub fn project_rows(rows: &Vec<Binding>, items: &Vec<ReturnItem>, records: &Records) -> (r: Vec<
    QueryResult,
>)
    requires
        records.wf(),
    ensures
        text::views(r@) == projected_all(text::views(rows@), text::views(items@), records@),
{
    let mut out: Vec<QueryResult> = Vec::new();
    let mut i: usize = 0;
    while i < rows.len()
        invariant
            i <= rows@.len(),
            records.wf(),
            out@.len() == i,
            forall|k: int|
                0 <= k < i ==> (#[trigger] out@[k])@ == projected(
                    rows@[k]@,
                    text::views(items@),
                    records@,
                ),
        decreases rows.len() - i,
    {
        out.push(project_row(&rows[i], items, records));
        i = i + 1;
    }
    assert(text::views(out@) =~= projected_all(
        text::views(rows@),
        text::views(items@),
        records@,
    ));
    out
}

/// An id can be had back from what is sent of it.
pub proof fn law_ids_are_sent_whole(id: u64)
    ensures
        #[verifier::truncate] ((#[verifier::truncate] (id as i64)) as u64) == id,
{
    assert(#[verifier::truncate] ((#[verifier::truncate] (id as i64)) as u64) == id)
        by (bit_vector);
}

/// A projected property has the value that was stored, unless that cannot be
/// sent.
pub proof fn law_a_property_is_projected_to_its_value(
    b: BindingView,
    alias: Seq<char>,
    property: Seq<char>,
    records: RecordsView,
)
    ensures
        ({
            let r = projected(b, seq![ReturnItemView { alias, property: Some(property) }], records);
            let v = ordering::property_value(b, alias, property, records);
            &&& r.projection.dom().contains(property_name(alias, property)) <==> v is Some
                && wire::sent_value(v->Some_0) is Some
            &&& r.projection.dom().contains(property_name(alias, property))
                ==> wire::received_value(r.projection[property_name(alias, property)]->Some_0)
                == v->Some_0
            &&& r.properties.dom().len() == 0
        }),
{
    reveal_with_fuel(projected, 2);
    let items = seq![ReturnItemView { alias, property: Some(property) }];
    assert(items.drop_last() =~= Seq::<ReturnItemView>::empty());
}

/// What a client sees of a value: integers, doubles, truth values, texts,
/// timestamps and bytes as they are; lists and nothing are not shown.
pub open spec fn shown(v: PropertyValueView) -> Option<KindView> {
    match v {
        PropertyValueView::Int64(x) => Some(KindView::Int64Value(x)),
        PropertyValueView::Float64(x) => Some(KindView::Float64Value(x)),
        PropertyValueView::Bool(x) => Some(KindView::BoolValue(x)),
        PropertyValueView::String(x) => Some(KindView::StringValue(x)),
        PropertyValueView::Timestamp(x) => Some(KindView::TimestampValue(x)),
        PropertyValueView::Bytes(x) => Some(KindView::BytesValue(x)),
        PropertyValueView::List(_) => None,
        PropertyValueView::Null => None,
    }
}

/// The name under which an item is shown: `alias`, or `alias.property`.
pub open spec fn item_name(item: ReturnItemView) -> Seq<char> {
    match item.property {
        Some(property) => item.alias.push('.') + property,
        None => item.alias,
    }
}

/// That an item is shown of a row as `kind`: a property as its value, a node or
/// an edge as its id.
pub open spec fn shows(
    item: ReturnItemView,
    b: BindingView,
    records: RecordsView,
    kind: KindView,
) -> bool {
    match item.property {
        Some(property) => exists|v: PropertyValueView| #[trigger]
            comparing::gives(b, item.alias, property, records, v) && shown(v) == Some(kind),
        None => kind matches KindView::Int64Value(x) && (if b.nodes.dom().contains(item.alias) {
            x == (b.nodes[item.alias].0 as i64)
        } else {
            b.edges.dom().contains(item.alias) && x == (b.edges[item.alias].0 as i64)
        }),
    }
}

/// That fields are the name of a record and those of its properties that can be
/// shown.
pub open spec fn shows_record(
    fields: FieldsView,
    name: Seq<char>,
    properties: Map<Seq<char>, PropertyValueView>,
) -> bool {
    &&& fields.name == name
    &&& forall|p: Seq<char>| #[trigger]
        fields.fields.dom().contains(p) <==> properties.dom().contains(p) && shown(properties[p])
            is Some
    &&& forall|p: Seq<char>|
        fields.fields.dom().contains(p) ==> #[trigger] fields.fields[p] == shown(properties[p])
}

proof fn lemma_item_name(item: ReturnItemView)
    ensures
        item.property matches Some(property) ==> property_name(item.alias, property) == item_name(
            item,
        ),
{
    reveal_strlit(".");
    if let Some(property) = item.property {
        assert(property_name(item.alias, property) =~= item_name(item));
    }
}

/// A row is projected to what is shown of it, item by item: under the name of
/// an item there is what the item shows, and under any other name nothing.
pub proof fn law_a_row_is_projected_to_what_is_shown(
    b: BindingView,
    items: Seq<ReturnItemView>,
    records: RecordsView,
    name: Seq<char>,
    kind: KindView,
)
    requires
        forall|i: int, j: int|
            0 <= i < items.len() && 0 <= j < items.len() && item_name(#[trigger] items[i])
                == item_name(#[trigger] items[j]) ==> items[i] == items[j],
    ensures
        projected(b, items, records).projection.dom().contains(name) && projected(
            b,
            items,
            records,
        ).projection[name] == Some(kind) <==> exists|i: int|
            0 <= i < items.len() && item_name(#[trigger] items[i]) == name && shows(
                items[i],
                b,
                records,
                kind,
            ),
        projected(b, items, records).projection.dom().contains(name) ==> projected(
            b,
            items,
            records,
        ).projection[name] is Some,
    decreases items.len(),
{
    if items.len() > 0 {
        let shorter = items.drop_last();
        let item = items.last();
        let last = items.len() - 1;
        assert forall|i: int, j: int|
            0 <= i < shorter.len() && 0 <= j < shorter.len() && item_name(#[trigger] shorter[i])
                == item_name(#[trigger] shorter[j]) implies shorter[i] == shorter[j] by {
            assert(items[i] == shorter[i] && items[j] == shorter[j]);
        }
        law_a_row_is_projected_to_what_is_shown(b, shorter, records, name, kind);
        lemma_item_name(item);
        let before = projected(b, shorter, records);
        let after = projected(b, items, records);
        assert(items[last] == item);
        lemma_item_is_shown(item, b, records, before, kind);
        if exists|i: int|
            0 <= i < shorter.len() && item_name(#[trigger] shorter[i]) == name && shows(
                shorter[i],
                b,
                records,
                kind,
            ) {
            let i = choose|i: int|
                0 <= i < shorter.len() && item_name(#[trigger] shorter[i]) == name && shows(
                    shorter[i],
                    b,
                    records,
                    kind,
                );
            assert(items[i] == shorter[i]);
            if item_name(item) == name {
                assert(items[i] == items[last]);
            }
        }
        if exists|i: int|
            0 <= i < items.len() && item_name(#[trigger] items[i]) == name && shows(
                items[i],
                b,
                records,
                kind,
            ) {
            let i = choose|i: int|
                0 <= i < items.len() && item_name(#[trigger] items[i]) == name && shows(
                    items[i],
                    b,
                    records,
                    kind,
                );
            if i < last {
                assert(shorter[i] == items[i]);
                if item_name(item) == name {
                    assert(items[i] == items[last]);
                }
            }
        }
    }
}

proof fn lemma_item_is_shown(
    item: ReturnItemView,
    b: BindingView,
    records: RecordsView,
    r: QueryResultView,
    kind: KindView,
)
    ensures
        ({
            let after = with_item(r, item, b, records).projection;
            let name = item_name(item);
            &&& shows(item, b, records, kind) ==> after == r.projection.insert(name, Some(kind))
            &&& after == r.projection || (after.dom().contains(name) && after[name] is Some && shows(
                item,
                b,
                records,
                after[name]->Some_0,
            ) && after == r.projection.insert(name, after[name]))
        }),
{
    lemma_item_name(item);
    match item.property {
        Some(property) => {
            let found = ordering::property_value(b, item.alias, property, records);
            if let Some(v) = found {
                assert(comparing::gives(b, item.alias, property, records, v));
                assert(wire::sent_value(v) == shown(v));
                if wire::sent_value(v) is Some {
                    assert(shows(item, b, records, shown(v)->Some_0));
                }
            }
            if shows(item, b, records, kind) {
                let v = choose|v: PropertyValueView| #[trigger]
                    comparing::gives(b, item.alias, property, records, v) && shown(v) == Some(
                        kind,
                    );
                assert(found == Some(v));
            }
        },
        None => {},
    }
}

/// That a whole node is among the items.
pub open spec fn asks_for(items: Seq<ReturnItemView>, alias: Seq<char>) -> bool {
    exists|i: int|
        0 <= i < items.len() && (#[trigger] items[i]).alias == alias && items[i].property is None
}

/// The record of a node or of an edge goes along with it exactly where it is
/// projected whole and its record was fetched.
pub proof fn law_records_go_along(
    b: BindingView,
    items: Seq<ReturnItemView>,
    records: RecordsView,
    alias: Seq<char>,
)
    ensures
        projected(b, items, records).properties.dom().contains(alias) <==> asks_for(items, alias)
            && b.nodes.dom().contains(alias) && records.nodes.dom().contains(b.nodes[alias].0),
        projected(b, items, records).properties.dom().contains(alias) ==> shows_record(
            projected(b, items, records).properties[alias],
            records.nodes[b.nodes[alias].0].label,
            records.nodes[b.nodes[alias].0].properties,
        ),
        projected(b, items, records).edge_properties.dom().contains(alias) <==> asks_for(
            items,
            alias,
        ) && !b.nodes.dom().contains(alias) && b.edges.dom().contains(alias)
            && records.edges.dom().contains(b.edges[alias].0),
        projected(b, items, records).edge_properties.dom().contains(alias) ==> shows_record(
            projected(b, items, records).edge_properties[alias],
            records.edges[b.edges[alias].0].edge_type,
            records.edges[b.edges[alias].0].properties,
        ),
    decreases items.len(),
{
    if items.len() > 0 {
        let shorter = items.drop_last();
        law_records_go_along(b, shorter, records, alias);
        assert(items[items.len() - 1] == items.last());
        if asks_for(shorter, alias) {
            let i = choose|i: int|
                0 <= i < shorter.len() && (#[trigger] shorter[i]).alias == alias
                    && shorter[i].property is None;
            assert(items[i] == shorter[i]);
        }
        if asks_for(items, alias) {
            let i = choose|i: int|
                0 <= i < items.len() && (#[trigger] items[i]).alias == alias && items[i].property
                    is None;
            if i < shorter.len() {
                assert(shorter[i] == items[i]);
            }
        }
    }
}

} // verus!
