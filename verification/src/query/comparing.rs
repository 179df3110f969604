//! How values compare, by what they are: numbers by their size, texts by the
//! first place where they part, truth values by one being true and the other
//! one not.
use crate::dsl::{ComparisonOp, LiteralView, PropertyFilterView, PropertyRefView};
use crate::query::filter_eval;
use crate::query::hydration;
use crate::query::hydration::RecordsView;
use crate::query::BindingView;
use crate::storage::PropertyValueView;
use crate::text;
use vstd::prelude::*;

verus! {

/// Whether a text ends, or goes on with a smaller character, where another one
/// first differs from it.
pub open spec fn text_less(a: Seq<char>, b: Seq<char>) -> bool {
    exists|k: int|
        0 <= k <= a.len() && k < b.len() && #[trigger] a.take(k) == b.take(k) && (k == a.len() || (
        a[k] as int) < (b[k] as int))
}

/// Whether the bits of a double are those of a number: the exponent is not all
/// ones, or nothing but ones.
pub open spec fn is_number(bits: u64) -> bool {
    0 <= bits <= 0x7ff0_0000_0000_0000 || 0x8000_0000_0000_0000 <= bits <= 0xfff0_0000_0000_0000
}

/// Whether a double is below another one: both are from zero up and the first
/// has the smaller bits, both have a sign and it has the larger ones, or only
/// the first has a sign and they are not both zero.
pub open spec fn double_less(a: u64, b: u64) -> bool {
    if a < 0x8000_0000_0000_0000 {
        b < 0x8000_0000_0000_0000 && a < b
    } else if b < 0x8000_0000_0000_0000 {
        a != 0x8000_0000_0000_0000 || b != 0
    } else {
        a > b
    }
}

/// Whether two doubles are equal: they have the same bits, or both are zero.
pub open spec fn double_same(a: u64, b: u64) -> bool {
    a == b || ((a == 0 || a == 0x8000_0000_0000_0000) && (b == 0 || b == 0x8000_0000_0000_0000))
}

/// What an operator says of a pair that is in order, the same, or neither.
pub open spec fn says(op: ComparisonOp, less: bool, same: bool) -> bool {
    match op {
        ComparisonOp::Eq => same,
        ComparisonOp::Ne => !same,
        ComparisonOp::Lt => less,
        ComparisonOp::Lte => less || same,
        ComparisonOp::Gt => !less && !same,
        ComparisonOp::Gte => !less,
    }
}

/// Whether two values are of one type and compare as an operator says. A
/// timestamp compares with a text by the instant that the text names.
pub open spec fn compare(op: ComparisonOp, a: PropertyValueView, b: PropertyValueView) -> bool {
    match (a, b) {
        (PropertyValueView::Int64(x), PropertyValueView::Int64(y)) => says(op, x < y, x == y),
        (PropertyValueView::Float64(x), PropertyValueView::Float64(y)) => is_number(x) && is_number(
            y,
        ) && says(op, double_less(x, y), double_same(x, y)),
        (PropertyValueView::Bool(x), PropertyValueView::Bool(y)) => says(op, !x && y, x == y),
        (PropertyValueView::String(x), PropertyValueView::String(y)) => says(
            op,
            text_less(x, y),
            x == y,
        ),
        (PropertyValueView::Timestamp(x), PropertyValueView::String(y)) =>
            filter_eval::rfc3339_micros(y) matches Some(i) && says(op, x < i, x == i),
        _ => false,
    }
}

/// The value that is written as a literal. A double that is still text has
/// none.
pub open spec fn written(l: LiteralView) -> PropertyValueView {
    match l {
        LiteralView::Int64(x) => PropertyValueView::Int64(x),
        LiteralView::Float64(x) => PropertyValueView::Float64(x),
        LiteralView::FloatText(_) => PropertyValueView::Null,
        LiteralView::Bool(x) => PropertyValueView::Bool(x),
        LiteralView::String(x) => PropertyValueView::String(x),
    }
}

/// A property meets a comparison with a literal exactly where its value and the
/// one that is written compare so: integers as integers, doubles as doubles,
/// texts as texts, and timestamps with the instant that is written.
pub proof fn law_values_meet_what_they_compare_with(
    v: PropertyValueView,
    op: ComparisonOp,
    l: LiteralView,
)
    ensures
        filter_eval::meets(v, op, l, filter_eval::literal_instant(l)) <==> compare(
            op,
            v,
            written(l),
        ),
{
    if let (PropertyValueView::String(x), LiteralView::String(y)) = (v, l) {
        text::law_texts_are_ordered_by_where_they_part(x, y);
        text::lemma_lex_irreflexive(x);
    }
}

/// Properties pass a filter exactly where they hold its property, with a value
/// that compares with the one of the filter as the filter says.
pub proof fn law_filters_compare_the_property(
    properties: Map<Seq<char>, PropertyValueView>,
    f: PropertyFilterView,
)
    ensures
        filter_eval::passes(properties, f) <==> properties.dom().contains(f.property) && compare(
            f.op,
            properties[f.property],
            written(f.value),
        ),
{
    if properties.dom().contains(f.property) {
        law_values_meet_what_they_compare_with(properties[f.property], f.op, f.value);
    }
}

/// Properties pass filters exactly where they pass each of them.
pub proof fn law_all_filters_compare(
    properties: Map<Seq<char>, PropertyValueView>,
    filters: Seq<PropertyFilterView>,
)
    ensures
        filter_eval::passes_all(properties, filters) <==> forall|i: int|
            0 <= i < filters.len() ==> properties.dom().contains(
                (#[trigger] filters[i]).property,
            ) && compare(filters[i].op, properties[filters[i].property], written(filters[i].value)),
{
    assert forall|i: int| 0 <= i < filters.len() implies (filter_eval::passes(
        properties,
        #[trigger] filters[i],
    ) <==> properties.dom().contains(filters[i].property) && compare(
        filters[i].op,
        properties[filters[i].property],
        written(filters[i].value),
    )) by {
        law_filters_compare_the_property(properties, filters[i]);
    }
}

/// Comparing with the sides exchanged and the operator flipped is the same.
pub proof fn law_flipping_compares_the_same(
    op: ComparisonOp,
    a: PropertyValueView,
    b: PropertyValueView,
)
    requires
        !(a is Timestamp) || !(b is String),
        !(b is Timestamp) || !(a is String),
    ensures
        compare(filter_eval::flipped(op), a, b) <==> compare(op, b, a),
{
    if let (PropertyValueView::String(x), PropertyValueView::String(y)) = (a, b) {
        text::law_texts_are_ordered_by_where_they_part(x, y);
        text::law_texts_are_ordered_by_where_they_part(y, x);
        text::lemma_lex_irreflexive(x);
        text::lemma_lex_total(x, y);
        if text::lex_lt(x, y) && text::lex_lt(y, x) {
            text::lemma_lex_transitive(x, y, x);
        }
    }
}

/// That a row gives a property a value: the alias stands for a node, or else
/// for an edge, whose record holds it.
pub open spec fn gives(
    row: BindingView,
    alias: Seq<char>,
    property: Seq<char>,
    records: RecordsView,
    v: PropertyValueView,
) -> bool {
    if row.nodes.dom().contains(alias) {
        let id = row.nodes[alias].0;
        records.nodes.dom().contains(id) && records.nodes[id].properties.dom().contains(property)
            && records.nodes[id].properties[property] == v
    } else {
        let id = row.edges[alias].0;
        row.edges.dom().contains(alias) && records.edges.dom().contains(id)
            && records.edges[id].properties.dom().contains(property)
            && records.edges[id].properties[property] == v
    }
}

/// A row meets a condition exactly where it gives the property a value that
/// compares with the written one as the condition says.
pub proof fn law_rows_meet_what_their_values_compare_with(
    row: BindingView,
    alias: Seq<char>,
    f: PropertyFilterView,
    records: RecordsView,
)
    ensures
        hydration::meets_condition(row, (alias, f), records) <==> exists|v: PropertyValueView|
            #[trigger] gives(row, alias, f.property, records, v) && compare(
                f.op,
                v,
                written(f.value),
            ),
{
    if let Some(properties) = hydration::properties_of(row, alias, records) {
        law_filters_compare_the_property(properties, f);
        if properties.dom().contains(f.property) {
            assert(gives(row, alias, f.property, records, properties[f.property]));
        }
    }
}

/// The value that a `NOT EXISTS` takes from the enclosing row, where it is an
/// integer, a double, a truth value or a text, is met by a property of an edge
/// exactly where the two values compare as the condition says. No edge meets a
/// condition on a value of another type, nor one that the row does not give.
pub proof fn law_correlated_values_compare(
    row: BindingView,
    alias: Seq<char>,
    property: Seq<char>,
    records: RecordsView,
    op: ComparisonOp,
    w: PropertyValueView,
)
    ensures
        (hydration::referred(row, PropertyRefView { alias, property }, records) matches Some(l)
            && filter_eval::meets(w, op, l, filter_eval::literal_instant(l))) <==> exists|
            v: PropertyValueView,
        | #[trigger]
            gives(row, alias, property, records, v) && compare(op, w, v),
{
    if let Some(properties) = hydration::properties_of(row, alias, records) {
        if properties.dom().contains(property) {
            let v = properties[property];
            assert(gives(row, alias, property, records, v));
            if let Some(l) = hydration::literal_of(v) {
                law_values_meet_what_they_compare_with(w, op, l);
                assert(written(l) == v);
            }
        }
    }
}

} // verus!
