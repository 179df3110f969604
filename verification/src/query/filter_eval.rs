//! Comparison of stored property values with the literals of a query.
use crate::dsl::{ComparisonOp, Literal, LiteralView, PropertyFilter, PropertyFilterView};
use crate::storage;
use crate::storage::{Properties, PropertyValue, PropertyValueView};
use crate::text;
use vstd::prelude::*;

verus! {

/// How one value stands to another.
#[derive(Clone, Copy, Debug, PartialEq, Eq, Structural)]
pub enum Order {
    Less,
    Equal,
    Greater,
}

pub open spec fn int_order(a: int, b: int) -> Order {
    if a < b {
        Order::Less
    } else if a == b {
        Order::Equal
    } else {
        Order::Greater
    }
}

pub open spec fn bool_order(a: bool, b: bool) -> Order {
    if a == b {
        Order::Equal
    } else if b {
        Order::Less
    } else {
        Order::Greater
    }
}

pub open spec fn text_order(a: Seq<char>, b: Seq<char>) -> Order {
    if text::lex_lt(a, b) {
        Order::Less
    } else if a == b {
        Order::Equal
    } else {
        Order::Greater
    }
}

/// The magnitude bits of a double.
pub open spec fn float_magnitude(bits: u64) -> int {
    bits as int % 0x8000_0000_0000_0000
}

/// Whether a bit pattern is no number.
pub open spec fn float_is_nan(bits: u64) -> bool {
    float_magnitude(bits) > 0x7ff0_0000_0000_0000
}

/// The place of a double among doubles: the patterns of one sign are ordered
/// by their magnitude, and both zeros are at zero.
pub open spec fn float_place(bits: u64) -> int {
    if bits >= 0x8000_0000_0000_0000 {
        -float_magnitude(bits)
    } else {
        float_magnitude(bits)
    }
}

/// The order of two doubles; a pattern that is no number has none.
pub open spec fn float_order(a: u64, b: u64) -> Option<Order> {
    if float_is_nan(a) || float_is_nan(b) {
        None
    } else {
        Some(int_order(float_place(a), float_place(b)))
    }
}

/// How a stored value stands to a literal. A timestamp is compared with the
/// instant `instant` that a string literal stands for. Values of different
/// types have no order, nor has a number that is still text.
pub open spec fn value_order(
    value: PropertyValueView,
    literal: LiteralView,
    instant: Option<i64>,
) -> Option<Order> {
    match (value, literal) {
        (PropertyValueView::Int64(v), LiteralView::Int64(l)) => Some(
            int_order(v as int, l as int),
        ),
        (PropertyValueView::Float64(v), LiteralView::Float64(l)) => float_order(v, l),
        (PropertyValueView::Bool(v), LiteralView::Bool(l)) => Some(bool_order(v, l)),
        (PropertyValueView::String(v), LiteralView::String(l)) => Some(text_order(v, l)),
        (PropertyValueView::Timestamp(v), LiteralView::String(l)) => match instant {
            Some(i) => Some(int_order(v as int, i as int)),
            None => None,
        },
        _ => None,
    }
}

/// Whether an operator accepts an order.
pub open spec fn op_accepts(op: ComparisonOp, o: Order) -> bool {
    match op {
        ComparisonOp::Eq => o == Order::Equal,
        ComparisonOp::Ne => o != Order::Equal,
        ComparisonOp::Lt => o == Order::Less,
        ComparisonOp::Lte => o != Order::Greater,
        ComparisonOp::Gt => o == Order::Greater,
        ComparisonOp::Gte => o != Order::Less,
    }
}

/// Whether a value meets a comparison, given the instant of the literal.
/// Values without an order meet none.
pub open spec fn meets(
    value: PropertyValueView,
    op: ComparisonOp,
    literal: LiteralView,
    instant: Option<i64>,
) -> bool {
    match value_order(value, literal, instant) {
        Some(o) => op_accepts(op, o),
        None => false,
    }
}

/// The microseconds since the Unix epoch of the instant that an RFC 3339 text
/// names, if it names one.
pub uninterp spec fn rfc3339_micros(s: Seq<char>) -> Option<i64>;

/// `chrono::DateTime::parse_from_rfc3339` and, on its result,
/// `timestamp_micros`: a function of the text alone, `None` where it does not
/// parse. Its value is named `rfc3339_micros`; nothing else is claimed of it.
#[verifier::external_body]
pub(crate) fn parse_rfc3339_micros(s: &str) -> (r: Option<i64>)
    ensures
        r == rfc3339_micros(s@),
{
    chrono::DateTime::parse_from_rfc3339(s).ok().map(|instant| instant.timestamp_micros())
}

/// The instant that a literal stands for.
pub open spec fn literal_instant(literal: LiteralView) -> Option<i64> {
    match literal {
        LiteralView::String(l) => rfc3339_micros(l),
        _ => None,
    }
}

pub(crate) fn int_order_exec(a: i64, b: i64) -> (r: Order)
    ensures
        r == int_order(a as int, b as int),
{
    if a < b {
        Order::Less
    } else if a == b {
        Order::Equal
    } else {
        Order::Greater
    }
}

pub(crate) fn text_order_exec(a: &String, b: &String) -> (r: Order)
    ensures
        r == text_order(a@, b@),
{
    if text::str_less(a.as_str(), b.as_str()) {
        Order::Less
    } else if *a == *b {
        Order::Equal
    } else {
        Order::Greater
    }
}

pub(crate) fn float_order_exec(a: u64, b: u64) -> (r: Option<Order>)
    ensures
        r == float_order(a, b),
{
    let ma: u64 = a % 0x8000_0000_0000_0000;
    let mb: u64 = b % 0x8000_0000_0000_0000;
    if ma > 0x7ff0_0000_0000_0000 || mb > 0x7ff0_0000_0000_0000 {
        return None;
    }
    let pa: i64 = if a >= 0x8000_0000_0000_0000 {
        -(ma as i64)
    } else {
        ma as i64
    };
    let pb: i64 = if b >= 0x8000_0000_0000_0000 {
        -(mb as i64)
    } else {
        mb as i64
    };
    Some(int_order_exec(pa, pb))
}

fn op_accepts_exec(op: ComparisonOp, o: Order) -> (r: bool)
    ensures
        r == op_accepts(op, o),
{
    match op {
        ComparisonOp::Eq => o == Order::Equal,
        ComparisonOp::Ne => o != Order::Equal,
        ComparisonOp::Lt => o == Order::Less,
        ComparisonOp::Lte => o != Order::Greater,
        ComparisonOp::Gt => o == Order::Greater,
        ComparisonOp::Gte => o != Order::Less,
    }
}

/// Whether a value meets a comparison with a literal that stands for
/// `instant`.
pub fn literal_matches_at(
    value: &PropertyValue,
    op: ComparisonOp,
    literal: &Literal,
    instant: Option<i64>,
) -> (r: bool)
    ensures
        r == meets(value@, op, literal@, instant),
{
    let order = match (value, literal) {
        (PropertyValue::Int64(v), Literal::Int64(l)) => Some(int_order_exec(*v, *l)),
        (PropertyValue::Float64(v), Literal::Float64(l)) => float_order_exec(*v, *l),
        (PropertyValue::Bool(v), Literal::Bool(l)) => if *v == *l {
            Some(Order::Equal)
        } else if *l {
            Some(Order::Less)
        } else {
            Some(Order::Greater)
        },
        (PropertyValue::String(v), Literal::String(l)) => Some(text_order_exec(v, l)),
        (PropertyValue::Timestamp(v), Literal::String(_)) => match instant {
            Some(i) => Some(int_order_exec(*v, i)),
            None => None,
        },
        _ => None,
    };
    match order {
        Some(o) => op_accepts_exec(op, o),
        None => false,
    }
}

pub(crate) fn literal_instant_exec(literal: &Literal) -> (r: Option<i64>)
    ensures
        r == literal_instant(literal@),
{
    match literal {
        Literal::String(l) => parse_rfc3339_micros(l.as_str()),
        _ => None,
    }
}

/// Whether a value meets a comparison with a literal.
pub fn literal_matches(value: &PropertyValue, op: ComparisonOp, literal: &Literal) -> (r: bool)
    ensures
        r == meets(value@, op, literal@, literal_instant(literal@)),
{
    literal_matches_at(value, op, literal, literal_instant_exec(literal))
}

/// Whether properties pass a filter. A property that is not there passes
/// none.
pub open spec fn passes(
    properties: Map<Seq<char>, PropertyValueView>,
    f: PropertyFilterView,
) -> bool {
    properties.dom().contains(f.property) && meets(
        properties[f.property],
        f.op,
        f.value,
        literal_instant(f.value),
    )
}

/// Whether properties pass all filters.
pub open spec fn passes_all(
    properties: Map<Seq<char>, PropertyValueView>,
    filters: Seq<PropertyFilterView>,
) -> bool {
    forall|i: int| 0 <= i < filters.len() ==> passes(properties, #[trigger] filters[i])
}

pub fn evaluate_filter(properties: &Properties, filter: &PropertyFilter) -> (r: bool)
    ensures
        r == passes(storage::property_views(properties@), filter@),
{
    match properties.get(filter.property.as_str()) {
        Some(value) => literal_matches(value, filter.op, &filter.value),
        None => false,
    }
}

pub fn evaluate_filters(properties: &Properties, filters: &Vec<PropertyFilter>) -> (r: bool)
    ensures
        r == passes_all(storage::property_views(properties@), text::views(filters@)),
{
    let ghost all = text::views(filters@);
    let mut i: usize = 0;
    while i < filters.len()
        invariant
            i <= filters@.len(),
            all == text::views(filters@),
            forall|k: int|
                0 <= k < i ==> passes(
                    storage::property_views(properties@),
                    #[trigger] all[k],
                ),
        decreases filters.len() - i,
    {
        if !evaluate_filter(properties, &filters[i]) {
            assert(!passes(storage::property_views(properties@), all[i as int]));
            return false;
        }
        i = i + 1;
    }
    true
}

/// The operator that says the same with its sides exchanged.
pub open spec fn flipped(op: ComparisonOp) -> ComparisonOp {
    match op {
        ComparisonOp::Eq => ComparisonOp::Eq,
        ComparisonOp::Ne => ComparisonOp::Ne,
        ComparisonOp::Lt => ComparisonOp::Gt,
        ComparisonOp::Lte => ComparisonOp::Gte,
        ComparisonOp::Gt => ComparisonOp::Lt,
        ComparisonOp::Gte => ComparisonOp::Lte,
    }
}

pub open spec fn reversed(o: Order) -> Order {
    match o {
        Order::Less => Order::Greater,
        Order::Equal => Order::Equal,
        Order::Greater => Order::Less,
    }
}

/// Exchanging the sides of a comparison and flipping its operator changes
/// nothing; flipping twice gives the operator back.
pub proof fn law_flipping_exchanges_the_sides(op: ComparisonOp, o: Order)
    ensures
        op_accepts(flipped(op), reversed(o)) == op_accepts(op, o),
        flipped(flipped(op)) == op,
{
}

/// Whether two integers compare as an operator says.
pub open spec fn compares(op: ComparisonOp, x: i64, y: i64) -> bool {
    match op {
        ComparisonOp::Eq => x == y,
        ComparisonOp::Ne => x != y,
        ComparisonOp::Lt => x < y,
        ComparisonOp::Lte => x <= y,
        ComparisonOp::Gt => x > y,
        ComparisonOp::Gte => x >= y,
    }
}

/// Integers compare with their sides exchanged as they do under the flipped
/// operator; values that are integers meet a comparison where they compare.
pub proof fn law_flipped_operators_compare_the_same_integers(op: ComparisonOp, x: i64, y: i64)
    ensures
        compares(op, x, y) == compares(flipped(op), y, x),
        flipped(flipped(op)) == op,
        flipped(ComparisonOp::Eq) == ComparisonOp::Eq,
        flipped(ComparisonOp::Ne) == ComparisonOp::Ne,
        flipped(ComparisonOp::Lt) == ComparisonOp::Gt,
        flipped(ComparisonOp::Lte) == ComparisonOp::Gte,
        meets(PropertyValueView::Int64(x), op, LiteralView::Int64(y), None) == compares(op, x, y),
{
}

/// An operator and its opposite divide the values that have an order.
pub proof fn law_operators_come_in_opposite_pairs(o: Order)
    ensures
        op_accepts(ComparisonOp::Eq, o) != op_accepts(ComparisonOp::Ne, o),
        op_accepts(ComparisonOp::Lt, o) != op_accepts(ComparisonOp::Gte, o),
        op_accepts(ComparisonOp::Gt, o) != op_accepts(ComparisonOp::Lte, o),
{
}

/// A string that names no instant matches no timestamp.
pub proof fn law_no_instant_no_match(v: i64, op: ComparisonOp, l: Seq<char>)
    requires
        rfc3339_micros(l) is None,
    ensures
        !meets(
            PropertyValueView::Timestamp(v),
            op,
            LiteralView::String(l),
            literal_instant(LiteralView::String(l)),
        ),
{
}

} // verus!
