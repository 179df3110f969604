//! `ORDER BY` and `LIMIT`: the rows of a result in the order of a property,
//! and no more of them than wanted.
use crate::dsl::{OrderBy, OrderByView, SortDirection};
use crate::query::comparing;
use crate::query::filter_eval;
use crate::query::filter_eval::Order;
use crate::query::hydration;
use crate::query::hydration::{Records, RecordsView};
use crate::query::{Binding, BindingView};
use crate::sorting;
use crate::sorting::Ordered;
use crate::storage::{Properties, PropertyValue, PropertyValueView};
use crate::text;
use crate::text::Duplicate;
use vstd::prelude::*;
use vstd::relations::*;

verus! {

/// The value of a property of what a row binds an alias to.
pub open spec fn property_value(
    b: BindingView,
    alias: Seq<char>,
    property: Seq<char>,
    records: RecordsView,
) -> Option<PropertyValueView> {
    match hydration::properties_of(b, alias, records) {
        Some(properties) => if properties.dom().contains(property) {
            Some(properties[property])
        } else {
            None
        },
        None => None,
    }
}

/// The properties of what a row binds an alias to, as far as they were
/// fetched.
fn find_properties<'a>(b: &Binding, alias: &str, records: &'a Records) -> (r: Option<&'a Properties>)
    requires
        records.wf(),
    ensures
        match r {
            Some(p) => hydration::properties_of(b@, alias@, records@) == Some(
                crate::storage::property_views(p@),
            ),
            None => hydration::properties_of(b@, alias@, records@) is None,
        },
{
    match b.nodes.get(alias) {
        Some(node) => match records.nodes.get(node.0) {
            Some(record) => Some(&record.properties),
            None => None,
        },
        None => match b.edges.get(alias) {
            Some(edge) => match records.edges.get(edge.0) {
                Some(record) => Some(&record.properties),
                None => None,
            },
            None => None,
        },
    }
}

pub fn find_value<'a>(b: &Binding, alias: &str, property: &str, records: &'a Records) -> (r: Option<
    &'a PropertyValue,
>)
    requires
        records.wf(),
    ensures
        match r {
            Some(v) => property_value(b@, alias@, property@, records@) == Some(v@),
            None => property_value(b@, alias@, property@, records@) is None,
        },
{
    match find_properties(b, alias, records) {
        Some(properties) => properties.get(property),
        None => None,
    }
}

/// The class of a value. Values of different classes are ordered by class.
/// What is missing, and what has no order, comes first; doubles that are no
/// numbers come behind those that are.
pub open spec fn sort_class(v: Option<PropertyValueView>) -> int {
    match v {
        Some(PropertyValueView::Int64(_)) => 1,
        Some(PropertyValueView::Float64(x)) => if filter_eval::float_is_nan(x) {
            3
        } else {
            2
        },
        Some(PropertyValueView::Bool(_)) => 4,
        Some(PropertyValueView::String(_)) => 5,
        Some(PropertyValueView::Timestamp(_)) => 6,
        _ => 0,
    }
}

/// The order of values within a class.
pub open spec fn class_le(a: PropertyValueView, b: PropertyValueView) -> bool {
    match (a, b) {
        (PropertyValueView::Int64(x), PropertyValueView::Int64(y)) => x <= y,
        (PropertyValueView::Float64(x), PropertyValueView::Float64(y)) =>
            filter_eval::float_is_nan(x) || filter_eval::float_place(x)
                <= filter_eval::float_place(y),
        (PropertyValueView::Bool(x), PropertyValueView::Bool(y)) => !x || y,
        (PropertyValueView::String(x), PropertyValueView::String(y)) => !text::lex_lt(y, x),
        (PropertyValueView::Timestamp(x), PropertyValueView::Timestamp(y)) => x <= y,
        _ => true,
    }
}

/// The order of the values that rows are sorted by.
pub open spec fn value_le(a: Option<PropertyValueView>, b: Option<PropertyValueView>) -> bool {
    sort_class(a) < sort_class(b) || (sort_class(a) == sort_class(b) && (sort_class(a) == 0
        || class_le(a->Some_0, b->Some_0)))
}

/// A row with the value that it is sorted by.
pub struct KeyedView {
    pub key: Option<PropertyValueView>,
    pub row: BindingView,
}

/// A row to be sorted from small to large.
struct Ascending {
    key: Option<PropertyValue>,
    row: Binding,
}

/// A row to be sorted from large to small.
struct Descending {
    key: Option<PropertyValue>,
    row: Binding,
}

impl View for Ascending {
    type V = KeyedView;

    closed spec fn view(&self) -> KeyedView {
        KeyedView { key: text::option_view(self.key), row: self.row@ }
    }
}

impl View for Descending {
    type V = KeyedView;

    closed spec fn view(&self) -> KeyedView {
        KeyedView { key: text::option_view(self.key), row: self.row@ }
    }
}

fn is_nan(bits: u64) -> (r: bool)
    ensures
        r == filter_eval::float_is_nan(bits),
{
    bits % 0x8000_0000_0000_0000 > 0x7ff0_0000_0000_0000
}

fn class_of(v: &Option<PropertyValue>) -> (r: u8)
    ensures
        r == sort_class(text::option_view(*v)),
{
    match v {
        Some(PropertyValue::Int64(_)) => 1,
        Some(PropertyValue::Float64(x)) => if is_nan(*x) {
            3
        } else {
            2
        },
        Some(PropertyValue::Bool(_)) => 4,
        Some(PropertyValue::String(_)) => 5,
        Some(PropertyValue::Timestamp(_)) => 6,
        _ => 0,
    }
}

fn at_most(a: &Option<PropertyValue>, b: &Option<PropertyValue>) -> (r: bool)
    ensures
        r == value_le(text::option_view(*a), text::option_view(*b)),
{
    let (x, y) = (class_of(a), class_of(b));
    if x != y {
        return x < y;
    }
    match (a, b) {
        (Some(PropertyValue::Int64(x)), Some(PropertyValue::Int64(y))) => *x <= *y,
        (Some(PropertyValue::Float64(x)), Some(PropertyValue::Float64(y))) =>
            match filter_eval::float_order_exec(*x, *y) {
            Some(o) => o != Order::Greater,
            None => true,
        },
        (Some(PropertyValue::Bool(x)), Some(PropertyValue::Bool(y))) => !*x || *y,
        (Some(PropertyValue::String(x)), Some(PropertyValue::String(y))) => !text::str_less(
            y.as_str(),
            x.as_str(),
        ),
        (Some(PropertyValue::Timestamp(x)), Some(PropertyValue::Timestamp(y))) => *x <= *y,
        _ => true,
    }
}

impl Ordered for Ascending {
    open spec fn le(a: KeyedView, b: KeyedView) -> bool {
        value_le(a.key, b.key)
    }

    fn at_most(&self, other: &Self) -> (r: bool) {
        at_most(&self.key, &other.key)
    }
}

impl Ordered for Descending {
    open spec fn le(a: KeyedView, b: KeyedView) -> bool {
        value_le(b.key, a.key)
    }

    fn at_most(&self, other: &Self) -> (r: bool) {
        at_most(&other.key, &self.key)
    }
}

/// The order that an `ORDER BY` asks for.
pub open spec fn row_order(direction: SortDirection) -> spec_fn(KeyedView, KeyedView) -> bool {
    match direction {
        SortDirection::Asc => |a: KeyedView, b: KeyedView| value_le(a.key, b.key),
        SortDirection::Desc => |a: KeyedView, b: KeyedView| value_le(b.key, a.key),
    }
}

/// Rows with the values that they are sorted by.
pub open spec fn keyed(rows: Seq<BindingView>, o: OrderByView, records: RecordsView) -> Seq<
    KeyedView,
> {
    Seq::new(
        rows.len(),
        |i: int|
            KeyedView {
                key: property_value(rows[i], o.alias, o.property, records),
                row: rows[i],
            },
    )
}

pub open spec fn rows_of(keyed: Seq<KeyedView>) -> Seq<BindingView> {
    Seq::new(keyed.len(), |i: int| keyed[i].row)
}

/// Rows in the order of a property. Rows that are equal in it keep their
/// order.
pub open spec fn ordered_rows(rows: Seq<BindingView>, o: OrderByView, records: RecordsView) -> Seq<
    BindingView,
> {
    rows_of(sorting::sorted_stably(keyed(rows, o, records), row_order(o.direction)))
}

fn key_of(b: &Binding, order_by: &OrderBy, records: &Records) -> (r: Option<PropertyValue>)
    requires
        records.wf(),
    ensures
        text::option_view(r) == property_value(
            b@,
            order_by@.alias,
            order_by@.property,
            records@,
        ),
{
    match find_value(b, order_by.alias.as_str(), order_by.property.as_str(), records) {
        Some(v) => Some(v.duplicate()),
        None => None,
    }
}

fn sort_ascending(rows: Vec<Binding>, order_by: &OrderBy, records: &Records) -> (r: Vec<Binding>)
    requires
        records.wf(),
        order_by@.direction == SortDirection::Asc,
    ensures
        text::views(r@) == ordered_rows(text::views(rows@), order_by@, records@),
{
    let ghost all = text::views(rows@);
    let ghost keys = keyed(all, order_by@, records@);
    let mut items: Vec<Ascending> = Vec::new();
    assert(text::views(items@) =~= keys.take(0));
    for row in it: rows
        invariant
            records.wf(),
            it.seq().len() == all.len(),
            forall|i: int| 0 <= i < all.len() ==> all[i] == (#[trigger] it.seq()[i])@,
            keys == keyed(all, order_by@, records@),
            text::views(items@) == keys.take(it.index()),
    {
        let ghost n = it.index();
        let key = key_of(&row, order_by, records);
        let x = Ascending { key, row };
        proof {
            assert(x@ == keys[n]);
            text::lemma_views_push(items@, x);
            assert(keys.take(n).push(keys[n]) =~= keys.take(n + 1));
        }
        items.push(x);
    }
    assert(keys.take(keys.len() as int) =~= keys);
    let sorted = sorting::sort(items);
    let ghost order = sorting::sorted_stably(keys, row_order(SortDirection::Asc));
    proof {
        assert(sorting::order_of::<Ascending>() =~= row_order(SortDirection::Asc));
    }
    let mut out: Vec<Binding> = Vec::new();
    assert(text::views(out@) =~= rows_of(order).take(0));
    for x in it: sorted
        invariant
            it.seq().len() == order.len(),
            forall|i: int| 0 <= i < order.len() ==> order[i] == (#[trigger] it.seq()[i])@,
            text::views(out@) == rows_of(order).take(it.index()),
    {
        let ghost n = it.index();
        let Ascending { key: _, row } = x;
        proof {
            assert(row@ == order[n].row);
            text::lemma_views_push(out@, row);
            assert(rows_of(order).take(n).push(row@) =~= rows_of(order).take(n + 1));
        }
        out.push(row);
    }
    assert(rows_of(order).take(order.len() as int) =~= rows_of(order));
    out
}

fn sort_descending(rows: Vec<Binding>, order_by: &OrderBy, records: &Records) -> (r: Vec<Binding>)
    requires
        records.wf(),
        order_by@.direction == SortDirection::Desc,
    ensures
        text::views(r@) == ordered_rows(text::views(rows@), order_by@, records@),
{
    let ghost all = text::views(rows@);
    let ghost keys = keyed(all, order_by@, records@);
    let mut items: Vec<Descending> = Vec::new();
    assert(text::views(items@) =~= keys.take(0));
    for row in it: rows
        invariant
            records.wf(),
            it.seq().len() == all.len(),
            forall|i: int| 0 <= i < all.len() ==> all[i] == (#[trigger] it.seq()[i])@,
            keys == keyed(all, order_by@, records@),
            text::views(items@) == keys.take(it.index()),
    {
        let ghost n = it.index();
        let key = key_of(&row, order_by, records);
        let x = Descending { key, row };
        proof {
            assert(x@ == keys[n]);
            text::lemma_views_push(items@, x);
            assert(keys.take(n).push(keys[n]) =~= keys.take(n + 1));
        }
        items.push(x);
    }
    assert(keys.take(keys.len() as int) =~= keys);
    let sorted = sorting::sort(items);
    let ghost order = sorting::sorted_stably(keys, row_order(SortDirection::Desc));
    proof {
        assert(sorting::order_of::<Descending>() =~= row_order(SortDirection::Desc));
    }
    let mut out: Vec<Binding> = Vec::new();
    assert(text::views(out@) =~= rows_of(order).take(0));
    for x in it: sorted
        invariant
            it.seq().len() == order.len(),
            forall|i: int| 0 <= i < order.len() ==> order[i] == (#[trigger] it.seq()[i])@,
            text::views(out@) == rows_of(order).take(it.index()),
    {
        let ghost n = it.index();
        let Descending { key: _, row } = x;
        proof {
            assert(row@ == order[n].row);
            text::lemma_views_push(out@, row);
            assert(rows_of(order).take(n).push(row@) =~= rows_of(order).take(n + 1));
        }
        out.push(row);
    }
    assert(rows_of(order).take(order.len() as int) =~= rows_of(order));
    out
}

/// Sorts rows by a property, given the records of what they bind.
pub fn sort_bindings_by_property(rows: Vec<Binding>, order_by: &OrderBy, records: &Records) -> (r:
    Vec<Binding>)
    requires
        records.wf(),
    ensures
        text::views(r@) == ordered_rows(text::views(rows@), order_by@, records@),
{
    match order_by.direction {
        SortDirection::Asc => sort_ascending(rows, order_by, records),
        SortDirection::Desc => sort_descending(rows, order_by, records),
    }
}

/// The first rows, as many as a `LIMIT` allows.
pub open spec fn limited<A>(rows: Seq<A>, limit: Option<u64>) -> Seq<A> {
    match limit {
        Some(n) => if n < rows.len() {
            rows.take(n as int)
        } else {
            rows
        },
        None => rows,
    }
}

/// Keeps the first rows, as many as a `LIMIT` allows.
pub fn limit_rows(rows: Vec<Binding>, limit: Option<u64>) -> (r: Vec<Binding>)
    ensures
        text::views(r@) == limited(text::views(rows@), limit),
{
    let mut rows = rows;
    match limit {
        Some(n) => {
            if n < rows.len() as u64 {
                let ghost before = rows@;
                rows.truncate(n as usize);
                assert(text::views(rows@) =~= text::views(before).take(n as int));
            }
        },
        None => {},
    }
    rows
}

proof fn lemma_value_order(
    a: Option<PropertyValueView>,
    b: Option<PropertyValueView>,
    c: Option<PropertyValueView>,
)
    ensures
        value_le(a, b) || value_le(b, a),
        value_le(a, b) && value_le(b, c) ==> value_le(a, c),
{
    if let (Some(PropertyValueView::String(x)), Some(PropertyValueView::String(y))) = (a, b) {
        text::lemma_lex_total(x, y);
        text::lemma_lex_irreflexive(x);
        if text::lex_lt(x, y) && text::lex_lt(y, x) {
            text::lemma_lex_transitive(x, y, x);
        }
        if let Some(PropertyValueView::String(z)) = c {
            text::lemma_lex_total(y, z);
            text::lemma_lex_total(x, z);
            if text::lex_lt(z, x) {
                if text::lex_lt(x, y) {
                    text::lemma_lex_transitive(z, x, y);
                }
            }
        }
    }
}

proof fn lemma_row_order(direction: SortDirection)
    ensures
        sorting::total_preorder(row_order(direction)),
{
    let le = row_order(direction);
    assert forall|x: KeyedView, y: KeyedView| #[trigger] le(x, y) || #[trigger] le(y, x) by {
        lemma_value_order(x.key, y.key, x.key);
    }
    assert forall|x: KeyedView, y: KeyedView, z: KeyedView| #[trigger]
        le(x, y) && #[trigger] le(y, z) implies le(x, z) by {
        lemma_value_order(x.key, y.key, z.key);
        lemma_value_order(z.key, y.key, x.key);
    }
}

/// The rows of a sorted result are in the order that was asked for, and they
/// are the rows that were sorted.
pub proof fn law_sorted_rows_are_in_order(
    rows: Seq<BindingView>,
    o: OrderByView,
    records: RecordsView,
)
    ensures
        ordered_rows(rows, o, records).to_multiset() == rows.to_multiset(),
        forall|i: int, j: int|
            0 <= i < j < ordered_rows(rows, o, records).len() ==> {
                let a = property_value(
                    #[trigger] ordered_rows(rows, o, records)[i],
                    o.alias,
                    o.property,
                    records,
                );
                let b = property_value(
                    #[trigger] ordered_rows(rows, o, records)[j],
                    o.alias,
                    o.property,
                    records,
                );
                match o.direction {
                    SortDirection::Asc => value_le(a, b),
                    SortDirection::Desc => value_le(b, a),
                }
            },
{
    let le = row_order(o.direction);
    let keys = keyed(rows, o, records);
    let sorted = sorting::sorted_stably(keys, le);
    lemma_row_order(o.direction);
    sorting::law_sorting_sorts(keys, le);
    lemma_rows_of_multiset(sorted, keys);
    assert(rows_of(keys) =~= rows);
    assert forall|k: int| 0 <= k < sorted.len() implies (#[trigger] sorted[k]).key
        == property_value(sorted[k].row, o.alias, o.property, records) by {
        assert(sorted.contains(sorted[k]));
        vstd::seq_lib::to_multiset_contains(sorted, sorted[k]);
        vstd::seq_lib::to_multiset_contains(keys, sorted[k]);
        assert(keys.contains(sorted[k]));
    }
    assert forall|i: int, j: int| 0 <= i < j < sorted.len() implies #[trigger] le(
        sorted[i],
        sorted[j],
    ) by {}
    let out = ordered_rows(rows, o, records);
    assert forall|i: int, j: int| 0 <= i < j < out.len() implies {
        let a = property_value(#[trigger] out[i], o.alias, o.property, records);
        let b = property_value(#[trigger] out[j], o.alias, o.property, records);
        match o.direction {
            SortDirection::Asc => value_le(a, b),
            SortDirection::Desc => value_le(b, a),
        }
    } by {
        assert(le(sorted[i], sorted[j]));
        assert(sorted[i].key == property_value(sorted[i].row, o.alias, o.property, records));
        assert(sorted[j].key == property_value(sorted[j].row, o.alias, o.property, records));
    }
}

proof fn lemma_rows_of_multiset(a: Seq<KeyedView>, b: Seq<KeyedView>)
    requires
        a.to_multiset() == b.to_multiset(),
    ensures
        rows_of(a).to_multiset() == rows_of(b).to_multiset(),
    decreases a.len(),
{
    broadcast use vstd::seq_lib::group_to_multiset_ensures;

    vstd::seq_lib::to_multiset_len(a);
    vstd::seq_lib::to_multiset_len(b);
    if a.len() == 0 {
        assert(rows_of(a) =~= rows_of(b));
    } else {
        let x = a.last();
        assert(a.contains(x));
        vstd::seq_lib::to_multiset_contains(a, x);
        vstd::seq_lib::to_multiset_contains(b, x);
        assert(b.contains(x));
        let i = choose|i: int| 0 <= i < b.len() && b[i] == x;
        let rest = b.remove(i);
        assert(a =~= a.drop_last().push(x));
        assert(b =~= rest.insert(i, x));
        assert(a.to_multiset() =~= a.drop_last().to_multiset().insert(x));
        assert(b.to_multiset() =~= rest.to_multiset().insert(x));
        assert(a.drop_last().to_multiset() =~= a.to_multiset().remove(x));
        assert(rest.to_multiset() =~= b.to_multiset().remove(x));
        lemma_rows_of_multiset(a.drop_last(), rest);
        assert(rows_of(a) =~= rows_of(a.drop_last()).push(x.row));
        assert(rows_of(b) =~= rows_of(rest).insert(i, x.row));
        assert(rows_of(b).to_multiset() =~= rows_of(rest).to_multiset().insert(x.row));
    }
}

/// The values by which two rows of a sorted result were put in their order:
/// from small to large, or the other way round.
pub open spec fn in_sequence(
    a: Option<PropertyValueView>,
    b: Option<PropertyValueView>,
    direction: SortDirection,
) -> (Option<PropertyValueView>, Option<PropertyValueView>) {
    match direction {
        SortDirection::Asc => (a, b),
        SortDirection::Desc => (b, a),
    }
}

/// In a sorted result the smaller value comes first in ascending order, and
/// last in descending order: the smaller integer or double, the earlier
/// timestamp, the text that comes first, and false before true.
pub proof fn law_smaller_values_come_first(
    rows: Seq<BindingView>,
    o: OrderByView,
    records: RecordsView,
    i: int,
    j: int,
    a: PropertyValueView,
    b: PropertyValueView,
)
    requires
        0 <= i < j < ordered_rows(rows, o, records).len(),
        comparing::gives(ordered_rows(rows, o, records)[i], o.alias, o.property, records, a),
        comparing::gives(ordered_rows(rows, o, records)[j], o.alias, o.property, records, b),
    ensures
        match in_sequence(Some(a), Some(b), o.direction) {
            (Some(PropertyValueView::Int64(x)), Some(PropertyValueView::Int64(y))) => x <= y,
            (Some(PropertyValueView::Timestamp(x)), Some(PropertyValueView::Timestamp(y))) => x
                <= y,
            (Some(PropertyValueView::Bool(x)), Some(PropertyValueView::Bool(y))) => !(x && !y),
            (Some(PropertyValueView::String(x)), Some(PropertyValueView::String(y))) =>
                !comparing::text_less(y, x),
            (Some(PropertyValueView::Float64(x)), Some(PropertyValueView::Float64(y))) =>
                comparing::is_number(x) && comparing::is_number(y) ==> !comparing::double_less(
                    y,
                    x,
                ),
            _ => true,
        },
{
    law_sorted_rows_are_in_order(rows, o, records);
    let out = ordered_rows(rows, o, records);
    let p = property_value(out[i], o.alias, o.property, records);
    let q = property_value(out[j], o.alias, o.property, records);
    assert(p == Some(a) && q == Some(b));
    if let (Some(PropertyValueView::String(x)), Some(PropertyValueView::String(y))) = in_sequence(
        p,
        q,
        o.direction,
    ) {
        text::law_texts_are_ordered_by_where_they_part(y, x);
    }
}

/// In a sorted result rows without a value come before those with one in
/// ascending order, and behind them in descending order.
pub proof fn law_missing_values_come_first(
    rows: Seq<BindingView>,
    o: OrderByView,
    records: RecordsView,
    i: int,
    j: int,
    v: PropertyValueView,
)
    requires
        0 <= i < ordered_rows(rows, o, records).len(),
        0 <= j < ordered_rows(rows, o, records).len(),
        forall|w: PropertyValueView|
            !(#[trigger] comparing::gives(
                ordered_rows(rows, o, records)[i],
                o.alias,
                o.property,
                records,
                w,
            )),
        comparing::gives(ordered_rows(rows, o, records)[j], o.alias, o.property, records, v),
        v is Int64 || v is Float64 || v is Bool || v is String || v is Timestamp,
    ensures
        match o.direction {
            SortDirection::Asc => i < j,
            SortDirection::Desc => j < i,
        },
{
    law_sorted_rows_are_in_order(rows, o, records);
    let out = ordered_rows(rows, o, records);
    let p = property_value(out[i], o.alias, o.property, records);
    let q = property_value(out[j], o.alias, o.property, records);
    assert(p is None) by {
        if let Some(w) = p {
            assert(comparing::gives(out[i], o.alias, o.property, records, w));
        }
    }
    assert(q == Some(v));
    if i == j {
        assert(false);
    }
}

/// A limit keeps as many rows as it says, or all where they are fewer, and
/// those that it keeps are the first ones.
pub proof fn law_a_limit_keeps_the_first<A>(rows: Seq<A>, limit: Option<u64>)
    ensures
        limit is None ==> limited(rows, limit) == rows,
        limit matches Some(n) ==> limited(rows, limit).len() == (if rows.len() < n {
            rows.len() as int
        } else {
            n as int
        }),
        forall|i: int|
            0 <= i < limited(rows, limit).len() ==> #[trigger] limited(rows, limit)[i] == rows[i],
{
}

/// Values of one type stand together: what comes between two whole numbers,
/// two truth values, two texts or two timestamps is one too; and numbers with a
/// fraction stand together with those that are no number behind them.
pub proof fn law_values_of_one_type_stand_together(
    a: PropertyValueView,
    b: PropertyValueView,
    c: PropertyValueView,
)
    requires
        value_le(Some(a), Some(b)),
        value_le(Some(b), Some(c)),
    ensures
        a is Int64 && c is Int64 ==> b is Int64,
        a is Float64 && c is Float64 ==> b is Float64,
        a is Bool && c is Bool ==> b is Bool,
        a is String && c is String ==> b is String,
        a is Timestamp && c is Timestamp ==> b is Timestamp,
        a is Float64 && c is Float64 && filter_eval::float_is_nan(a->Float64_0)
            ==> filter_eval::float_is_nan(c->Float64_0),
{
}

} // verus!
