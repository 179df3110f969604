//! Finds nodes in a property index by a literal.
//!
//! A text is looked up as it stands. Where timestamps are stored it stands
//! for the instant that it names; one that names none finds none.
use crate::dsl::{ComparisonOp, PropertyFilter, PropertyFilterView};
use crate::index;
use crate::index::{
    KeyBound, KeyBoundView, KeyEntryView, PropertyIndex, PropertyKey, PropertyKeyView,
};
use crate::query::filter_eval;
use crate::query::planner;
use crate::schema::NodeId;
use vstd::prelude::*;

verus! {

/// The instant that a key names, if it is a text that names one.
pub open spec fn key_instant(key: PropertyKeyView) -> Option<i64> {
    match key {
        PropertyKeyView::String(s) => filter_eval::rfc3339_micros(s),
        _ => None,
    }
}

/// The timestamp that a key stands for, given the instant that it names.
pub open spec fn instant_key(key: PropertyKeyView, instant: Option<i64>) -> Option<PropertyKeyView> {
    match (key, instant) {
        (PropertyKeyView::String(_), Some(t)) => Some(PropertyKeyView::Timestamp(t)),
        _ => None,
    }
}

/// The nodes whose value is a key, or the instant that the key names.
pub open spec fn ids_equal_to(
    tree: Seq<KeyEntryView>,
    key: PropertyKeyView,
    instant: Option<i64>,
) -> Seq<NodeId> {
    index::ids_at(tree, key) + match instant_key(key, instant) {
        Some(k) => index::ids_at(tree, k),
        None => seq![],
    }
}

/// The key that the values of a tree are compared with, if there is one.
pub open spec fn compared_key(
    tree: Seq<KeyEntryView>,
    key: PropertyKeyView,
    instant: Option<i64>,
) -> Option<PropertyKeyView> {
    if index::holds_timestamps(tree) && key is String {
        instant_key(key, instant)
    } else {
        Some(key)
    }
}

/// Where the keys begin that an operator accepts.
pub open spec fn lower_bound(op: ComparisonOp, key: PropertyKeyView) -> KeyBoundView {
    match op {
        ComparisonOp::Gt => KeyBoundView::Excluded(key),
        ComparisonOp::Gte => KeyBoundView::Included(key),
        _ => KeyBoundView::Unbounded,
    }
}

/// Where the keys end that an operator accepts.
pub open spec fn upper_bound(op: ComparisonOp, key: PropertyKeyView) -> KeyBoundView {
    match op {
        ComparisonOp::Lt => KeyBoundView::Excluded(key),
        ComparisonOp::Lte => KeyBoundView::Included(key),
        _ => KeyBoundView::Unbounded,
    }
}

/// The nodes of a label that pass a filter, as the index has them, given the
/// instant that the literal of the filter names. An index cannot tell which
/// nodes have another value than a given one.
pub open spec fn ids_passing(
    p: PropertyIndex,
    label: Seq<char>,
    f: PropertyFilterView,
    instant: Option<i64>,
) -> Seq<NodeId> {
    let tree = p.tree(label, f.property);
    let key = planner::literal_key(f.value);
    match f.op {
        ComparisonOp::Eq => ids_equal_to(tree, key, instant),
        ComparisonOp::Ne => seq![],
        _ => match compared_key(tree, key, instant) {
            Some(k) => index::ids_between(tree, lower_bound(f.op, k), upper_bound(f.op, k)),
            None => seq![],
        },
    }
}

pub(crate) fn key_instant_exec(key: &PropertyKey) -> (r: Option<i64>)
    ensures
        r == key_instant(key@),
{
    match key {
        PropertyKey::String(s) => filter_eval::parse_rfc3339_micros(s.as_str()),
        _ => None,
    }
}

fn instant_key_exec(key: &PropertyKey, instant: Option<i64>) -> (r: Option<PropertyKey>)
    ensures
        match r {
            Some(k) => instant_key(key@, instant) == Some(k@),
            None => instant_key(key@, instant) is None,
        },
{
    match (key, instant) {
        (PropertyKey::String(_), Some(t)) => Some(PropertyKey::Timestamp(t)),
        _ => None,
    }
}

fn append_ids(out: &mut Vec<NodeId>, ids: &[NodeId])
    ensures
        final(out)@ == old(out)@ + ids@,
{
    let ghost before = out@;
    let mut i: usize = 0;
    assert(before + ids@.take(0) =~= before);
    while i < ids.len()
        invariant
            i <= ids@.len(),
            out@ == before + ids@.take(i as int),
        decreases ids.len() - i,
    {
        out.push(ids[i]);
        assert(before + ids@.take(i + 1) =~= (before + ids@.take(i as int)).push(ids@[i as int]));
        i = i + 1;
    }
    assert(ids@.take(i as int) =~= ids@);
}

/// The nodes of a label whose property has a value, given the instant that
/// the value names.
pub fn find_ids(
    p: &PropertyIndex,
    label: &str,
    property: &str,
    key: &PropertyKey,
    instant: Option<i64>,
) -> (r: Vec<NodeId>)
    ensures
        r@ == ids_equal_to(p.tree(label@, property@), key@, instant),
{
    let mut out: Vec<NodeId> = Vec::new();
    append_ids(&mut out, p.lookup_eq(label, property, key));
    assert(out@ =~= index::ids_at(p.tree(label@, property@), key@));
    assert(out@ + Seq::<NodeId>::empty() =~= out@);
    if let Some(k) = instant_key_exec(key, instant) {
        append_ids(&mut out, p.lookup_eq(label, property, &k));
    }
    out
}

/// The nodes of a label that pass a filter, given the instant that its literal
/// names.
pub fn filter_ids(
    p: &PropertyIndex,
    label: &str,
    filter: &PropertyFilter,
    instant: Option<i64>,
) -> (r: Vec<NodeId>)
    requires
        planner::keyable(filter@.value),
        filter@.op != ComparisonOp::Ne,
    ensures
        r@ == ids_passing(*p, label@, filter@, instant),
{
    let key = planner::literal_to_property_key(&filter.value);
    let property = filter.property.as_str();
    if let ComparisonOp::Eq = filter.op {
        return find_ids(p, label, property, &key, instant);
    }
    let is_text = match &key {
        PropertyKey::String(_) => true,
        _ => false,
    };
    let compared = if is_text && p.holds_timestamps(label, property) {
        instant_key_exec(&key, instant)
    } else {
        Some(key)
    };
    let k = match compared {
        Some(k) => k,
        None => {
            return Vec::new();
        },
    };
    let bounds = match filter.op {
        ComparisonOp::Gt => (KeyBound::Excluded(k), KeyBound::Unbounded),
        ComparisonOp::Gte => (KeyBound::Included(k), KeyBound::Unbounded),
        ComparisonOp::Lt => (KeyBound::Unbounded, KeyBound::Excluded(k)),
        _ => (KeyBound::Unbounded, KeyBound::Included(k)),
    };
    p.lookup_range(label, property, bounds)
}

} // verus!
