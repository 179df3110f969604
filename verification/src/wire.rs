//! What goes over the wire between a client, the coordinator and the
//! partition nodes, and how it stands for values of the engine.
use crate::dsl::{ComparisonOp, Literal, LiteralView, PropertyFilter, PropertyFilterView};
use crate::index::{
    EdgeRecord, EdgeRecordView, NodeRecord, NodeRecordView, PropertyKey, PropertyKeyView,
};
use crate::maps;
use crate::maps::NamedMap;
use crate::schema::{EdgeType, Label};
use crate::storage;
use crate::storage::{Properties, PropertyValue, PropertyValueView};
use crate::text;
use vstd::prelude::*;
use vstd::string::*;

verus! {

/// The kind of a failure.
#[derive(Clone, Copy, Debug, PartialEq, Eq, Structural)]
pub enum Code {
    InvalidArgument,
    Unavailable,
    DeadlineExceeded,
    Internal,
    Unknown,
}

/// A failure, as it is reported to a caller.
#[derive(Clone, Debug, PartialEq, Eq)]
pub struct Status {
    pub code: Code,
    pub message: String,
}

pub struct StatusView {
    pub code: Code,
    pub message: Seq<char>,
}

impl View for Status {
    type V = StatusView;

    open spec fn view(&self) -> StatusView {
        StatusView { code: self.code, message: self.message@ }
    }
}

impl StatusView {
    pub open spec fn invalid_argument(message: Seq<char>) -> StatusView {
        StatusView { code: Code::InvalidArgument, message }
    }

    pub open spec fn unavailable(message: Seq<char>) -> StatusView {
        StatusView { code: Code::Unavailable, message }
    }

    pub open spec fn internal(message: Seq<char>) -> StatusView {
        StatusView { code: Code::Internal, message }
    }
}

impl Status {
    pub fn invalid_argument(message: &str) -> (r: Self)
        ensures
            r@ == StatusView::invalid_argument(message@),
    {
        Status { code: Code::InvalidArgument, message: message.to_owned() }
    }

    pub fn unavailable(message: &str) -> (r: Self)
        ensures
            r@ == StatusView::unavailable(message@),
    {
        Status { code: Code::Unavailable, message: message.to_owned() }
    }

    pub fn internal(message: &str) -> (r: Self)
        ensures
            r@ == StatusView::internal(message@),
    {
        Status { code: Code::Internal, message: message.to_owned() }
    }
}

/// What a value on the wire can be. `Float64Value` holds the bit pattern of
/// an IEEE 754 double, `TimestampValue` microseconds since the Unix epoch.
#[derive(Clone, Debug, PartialEq)]
pub enum Kind {
    Int64Value(i64),
    Float64Value(u64),
    BoolValue(bool),
    StringValue(String),
    TimestampValue(i64),
    BytesValue(Vec<u8>),
}

pub enum KindView {
    Int64Value(i64),
    Float64Value(u64),
    BoolValue(bool),
    StringValue(Seq<char>),
    TimestampValue(i64),
    BytesValue(Seq<u8>),
}

impl View for Kind {
    type V = KindView;

    open spec fn view(&self) -> KindView {
        match self {
            Kind::Int64Value(v) => KindView::Int64Value(*v),
            Kind::Float64Value(v) => KindView::Float64Value(*v),
            Kind::BoolValue(v) => KindView::BoolValue(*v),
            Kind::StringValue(v) => KindView::StringValue(v@),
            Kind::TimestampValue(v) => KindView::TimestampValue(*v),
            Kind::BytesValue(v) => KindView::BytesValue(v@),
        }
    }
}

/// A value on the wire.
#[derive(Clone, Debug, PartialEq)]
pub struct Value {
    pub kind: Option<Kind>,
}

impl View for Value {
    type V = Option<KindView>;

    open spec fn view(&self) -> Option<KindView> {
        text::option_view(self.kind)
    }
}

/// The label and the properties of a node.
#[derive(Clone, Debug)]
pub struct NodeProperties {
    pub label: String,
    pub fields: NamedMap<Value>,
}

/// The type and the properties of an edge.
#[derive(Clone, Debug)]
pub struct EdgeProperties {
    pub edge_type: String,
    pub fields: NamedMap<Value>,
}

/// A label, or an edge type, with properties.
pub struct FieldsView {
    pub name: Seq<char>,
    pub fields: Map<Seq<char>, Option<KindView>>,
}

impl View for NodeProperties {
    type V = FieldsView;

    open spec fn view(&self) -> FieldsView {
        FieldsView { name: self.label@, fields: maps::value_views(self.fields@) }
    }
}

impl View for EdgeProperties {
    type V = FieldsView;

    open spec fn view(&self) -> FieldsView {
        FieldsView { name: self.edge_type@, fields: maps::value_views(self.fields@) }
    }
}

/// A comparison of a property with a value. Operators go by number.
#[derive(Clone, Debug)]
pub struct FilterMessage {
    pub property: String,
    pub op: i32,
    pub value: Option<Value>,
}

pub struct FilterMessageView {
    pub property: Seq<char>,
    pub op: i32,
    pub value: Option<Option<KindView>>,
}

impl View for FilterMessage {
    type V = FilterMessageView;

    open spec fn view(&self) -> FilterMessageView {
        FilterMessageView {
            property: self.property@,
            op: self.op,
            value: text::option_view(self.value),
        }
    }
}

/// What a stored value is on the wire. Lists and nulls are not sent.
pub open spec fn sent_value(v: PropertyValueView) -> Option<KindView> {
    match v {
        PropertyValueView::Int64(x) => Some(KindView::Int64Value(x)),
        PropertyValueView::Float64(x) => Some(KindView::Float64Value(x)),
        PropertyValueView::Bool(x) => Some(KindView::BoolValue(x)),
        PropertyValueView::String(x) => Some(KindView::StringValue(x)),
        PropertyValueView::Timestamp(x) => Some(KindView::TimestampValue(x)),
        PropertyValueView::Bytes(x) => Some(KindView::BytesValue(x)),
        PropertyValueView::List(_) | PropertyValueView::Null => None,
    }
}

/// What a value on the wire is as a stored value.
pub open spec fn received_value(k: KindView) -> PropertyValueView {
    match k {
        KindView::Int64Value(x) => PropertyValueView::Int64(x),
        KindView::Float64Value(x) => PropertyValueView::Float64(x),
        KindView::BoolValue(x) => PropertyValueView::Bool(x),
        KindView::StringValue(x) => PropertyValueView::String(x),
        KindView::TimestampValue(x) => PropertyValueView::Timestamp(x),
        KindView::BytesValue(x) => PropertyValueView::Bytes(x),
    }
}

/// Properties as they are sent: those that have a value on the wire.
pub open spec fn sent_fields(properties: Map<Seq<char>, PropertyValueView>) -> Map<
    Seq<char>,
    Option<KindView>,
> {
    Map::new(
        |name: Seq<char>|
            properties.dom().contains(name) && sent_value(properties[name]) is Some,
        |name: Seq<char>| sent_value(properties[name]),
    )
}

/// Properties as they are received: those that are of some kind.
pub open spec fn received_fields(fields: Map<Seq<char>, Option<KindView>>) -> Map<
    Seq<char>,
    PropertyValueView,
> {
    Map::new(
        |name: Seq<char>| fields.dom().contains(name) && fields[name] is Some,
        |name: Seq<char>| received_value(fields[name]->Some_0),
    )
}

pub open spec fn sent_key(k: PropertyKeyView) -> KindView {
    match k {
        PropertyKeyView::Int64(x) => KindView::Int64Value(x),
        PropertyKeyView::Bool(x) => KindView::BoolValue(x),
        PropertyKeyView::String(x) => KindView::StringValue(x),
        PropertyKeyView::Timestamp(x) => KindView::TimestampValue(x),
    }
}

/// The key that a value on the wire is. An index has no keys that are
/// doubles or bytes.
pub open spec fn received_key(v: Option<KindView>) -> Result<PropertyKeyView, StatusView> {
    match v {
        Some(KindView::Int64Value(x)) => Ok(PropertyKeyView::Int64(x)),
        Some(KindView::BoolValue(x)) => Ok(PropertyKeyView::Bool(x)),
        Some(KindView::StringValue(x)) => Ok(PropertyKeyView::String(x)),
        Some(KindView::TimestampValue(x)) => Ok(PropertyKeyView::Timestamp(x)),
        Some(KindView::Float64Value(_)) | Some(KindView::BytesValue(_)) => Err(
            StatusView::invalid_argument(
                "PropertyIndex has no key variant for float/bytes values"@,
            ),
        ),
        None => Err(StatusView::invalid_argument("missing Value.kind"@)),
    }
}

/// What a literal is on the wire. One whose double is not known is of no
/// kind.
pub open spec fn sent_literal(l: LiteralView) -> Option<KindView> {
    match l {
        LiteralView::Int64(x) => Some(KindView::Int64Value(x)),
        LiteralView::Float64(x) => Some(KindView::Float64Value(x)),
        LiteralView::FloatText(_) => None,
        LiteralView::Bool(x) => Some(KindView::BoolValue(x)),
        LiteralView::String(x) => Some(KindView::StringValue(x)),
    }
}

/// The literal that a value on the wire is. The query language has no
/// literals that are timestamps or bytes.
pub open spec fn received_literal(v: Option<KindView>) -> Result<LiteralView, StatusView> {
    match v {
        Some(KindView::Int64Value(x)) => Ok(LiteralView::Int64(x)),
        Some(KindView::Float64Value(x)) => Ok(LiteralView::Float64(x)),
        Some(KindView::BoolValue(x)) => Ok(LiteralView::Bool(x)),
        Some(KindView::StringValue(x)) => Ok(LiteralView::String(x)),
        Some(KindView::TimestampValue(_)) | Some(KindView::BytesValue(_)) => Err(
            StatusView::invalid_argument(
                "WHERE filters don't support timestamp/bytes literals in v1"@,
            ),
        ),
        None => Err(StatusView::invalid_argument("missing Value.kind"@)),
    }
}

/// The number of an operator.
pub open spec fn sent_op(op: ComparisonOp) -> i32 {
    match op {
        ComparisonOp::Eq => 0,
        ComparisonOp::Ne => 1,
        ComparisonOp::Lt => 2,
        ComparisonOp::Lte => 3,
        ComparisonOp::Gt => 4,
        ComparisonOp::Gte => 5,
    }
}

pub open spec fn received_op(op: i32) -> Result<ComparisonOp, StatusView> {
    if op == 0 {
        Ok(ComparisonOp::Eq)
    } else if op == 1 {
        Ok(ComparisonOp::Ne)
    } else if op == 2 {
        Ok(ComparisonOp::Lt)
    } else if op == 3 {
        Ok(ComparisonOp::Lte)
    } else if op == 4 {
        Ok(ComparisonOp::Gt)
    } else if op == 5 {
        Ok(ComparisonOp::Gte)
    } else {
        Err(StatusView::invalid_argument("unknown ComparisonOp"@))
    }
}

pub open spec fn sent_filter(f: PropertyFilterView) -> FilterMessageView {
    FilterMessageView {
        property: f.property,
        op: sent_op(f.op),
        value: Some(sent_literal(f.value)),
    }
}

pub open spec fn received_filter(f: FilterMessageView) -> Result<PropertyFilterView, StatusView> {
    match received_op(f.op) {
        Err(e) => Err(e),
        Ok(op) => match f.value {
            None => Err(StatusView::invalid_argument("missing filter value"@)),
            Some(v) => match received_literal(v) {
                Err(e) => Err(e),
                Ok(value) => Ok(PropertyFilterView { property: f.property, op, value }),
            },
        },
    }
}

/// All filters of a message, or the error of the first that has one.
pub open spec fn received_filters(fs: Seq<FilterMessageView>) -> Result<
    Seq<PropertyFilterView>,
    StatusView,
>
    decreases fs.len(),
{
    if fs.len() == 0 {
        Ok(seq![])
    } else {
        match received_filters(fs.drop_last()) {
            Err(e) => Err(e),
            Ok(done) => match received_filter(fs.last()) {
                Err(e) => Err(e),
                Ok(f) => Ok(done.push(f)),
            },
        }
    }
}

/// An empty name stands for none.
pub open spec fn sent_name(name: Option<Seq<char>>) -> Seq<char> {
    match name {
        Some(n) => n,
        None => seq![],
    }
}

pub open spec fn received_name(name: Seq<char>) -> Option<Seq<char>> {
    if name.len() == 0 {
        None
    } else {
        Some(name)
    }
}

/// What a result stands for.
pub open spec fn outcome<T: View>(r: Result<T, Status>) -> Result<T::V, StatusView> {
    match r {
        Ok(v) => Ok(v@),
        Err(e) => Err(e@),
    }
}

pub fn property_value_to_proto(value: &PropertyValue) -> (r: Option<Value>)
    ensures
        match r {
            Some(v) => sent_value(value@) is Some && v@ == sent_value(value@),
            None => sent_value(value@) is None,
        },
{
    let kind = match value {
        PropertyValue::Int64(v) => Kind::Int64Value(*v),
        PropertyValue::Float64(v) => Kind::Float64Value(*v),
        PropertyValue::Bool(v) => Kind::BoolValue(*v),
        PropertyValue::String(v) => Kind::StringValue(v.clone()),
        PropertyValue::Timestamp(v) => Kind::TimestampValue(*v),
        PropertyValue::Bytes(v) => Kind::BytesValue(storage::duplicate_bytes(v)),
        PropertyValue::List(_) | PropertyValue::Null => {
            return None;
        },
    };
    Some(Value { kind: Some(kind) })
}

pub fn proto_value_to_property_value(value: &Value) -> (r: Option<PropertyValue>)
    ensures
        match r {
            Some(v) => value@ is Some && v@ == received_value(value@->Some_0),
            None => value@ is None,
        },
{
    match &value.kind {
        Some(Kind::Int64Value(v)) => Some(PropertyValue::Int64(*v)),
        Some(Kind::Float64Value(v)) => Some(PropertyValue::Float64(*v)),
        Some(Kind::BoolValue(v)) => Some(PropertyValue::Bool(*v)),
        Some(Kind::StringValue(v)) => Some(PropertyValue::String(v.clone())),
        Some(Kind::TimestampValue(v)) => Some(PropertyValue::Timestamp(*v)),
        Some(Kind::BytesValue(v)) => Some(PropertyValue::Bytes(storage::duplicate_bytes(v))),
        None => None,
    }
}

fn send_fields(properties: &Properties) -> (r: NamedMap<Value>)
    ensures
        maps::value_views(r@) == sent_fields(storage::property_views(properties@)),
{
    let names = properties.names();
    let ghost all = text::views(names@);
    let ghost stored = storage::property_views(properties@);
    let ghost sent = sent_fields(stored);
    let mut out: NamedMap<Value> = NamedMap::new();
    let mut i: usize = 0;
    while i < names.len()
        invariant
            i <= names@.len(),
            all == text::views(names@),
            stored == storage::property_views(properties@),
            sent == sent_fields(stored),
            forall|n: Seq<char>| #[trigger]
                out@.dom().contains(n) <==> all.take(i as int).contains(n) && sent.dom().contains(
                    n,
                ),
            forall|n: Seq<char>| #[trigger] out@.dom().contains(n) ==> out@[n]@ == sent[n],
        decreases names.len() - i,
    {
        let name = &names[i];
        proof {
            assert(all.take(i + 1) =~= all.take(i as int).push(name@));
            lemma_contains_push(all.take(i as int), name@);
        }
        match properties.get(name.as_str()) {
            Some(v) => {
                assert(stored[name@] == v@);
                match property_value_to_proto(v) {
                    Some(value) => {
                        out.insert(name.clone(), value);
                    },
                    None => {},
                }
            },
            None => {},
        }
        i = i + 1;
    }
    proof {
        assert(all.take(all.len() as int) =~= all);
        assert forall|n: Seq<char>| out@.dom().contains(n) <==> sent.dom().contains(n) by {
            if sent.dom().contains(n) {
                assert(properties@.dom().contains(n));
                assert(all.contains(n));
            }
        }
        assert(maps::value_views(out@) =~= sent);
    }
    out
}

proof fn lemma_contains_push<A>(s: Seq<A>, x: A)
    ensures
        forall|y: A| #[trigger] s.push(x).contains(y) <==> s.contains(y) || y == x,
{
    assert forall|y: A| #[trigger] s.push(x).contains(y) <==> s.contains(y) || y == x by {
        if s.contains(y) {
            let i = choose|i: int| 0 <= i < s.len() && s[i] == y;
            assert(s.push(x)[i] == y);
        }
        assert(s.push(x)[s.len() as int] == x);
    }
}

fn receive_fields(fields: &NamedMap<Value>) -> (r: Properties)
    ensures
        storage::property_views(r@) == received_fields(maps::value_views(fields@)),
{
    let names = fields.names();
    let ghost all = text::views(names@);
    let ghost sent = maps::value_views(fields@);
    let ghost received = received_fields(sent);
    let mut out: Properties = NamedMap::new();
    let mut i: usize = 0;
    while i < names.len()
        invariant
            i <= names@.len(),
            all == text::views(names@),
            sent == maps::value_views(fields@),
            received == received_fields(sent),
            forall|n: Seq<char>| #[trigger]
                out@.dom().contains(n) <==> all.take(i as int).contains(n)
                    && received.dom().contains(n),
            forall|n: Seq<char>| #[trigger] out@.dom().contains(n) ==> out@[n]@ == received[n],
        decreases names.len() - i,
    {
        let name = &names[i];
        proof {
            assert(all.take(i + 1) =~= all.take(i as int).push(name@));
            lemma_contains_push(all.take(i as int), name@);
        }
        match fields.get(name.as_str()) {
            Some(v) => {
                assert(sent[name@] == v@);
                match proto_value_to_property_value(v) {
                    Some(value) => {
                        out.insert(name.clone(), value);
                    },
                    None => {},
                }
            },
            None => {},
        }
        i = i + 1;
    }
    proof {
        assert(all.take(all.len() as int) =~= all);
        assert forall|n: Seq<char>| out@.dom().contains(n) <==> received.dom().contains(n) by {
            if received.dom().contains(n) {
                assert(fields@.dom().contains(n));
                assert(all.contains(n));
            }
        }
        assert(storage::property_views(out@) =~= received);
    }
    out
}

pub fn node_record_to_proto(record: &NodeRecord) -> (r: NodeProperties)
    ensures
        r@ == (FieldsView { name: record@.label, fields: sent_fields(record@.properties) }),
{
    NodeProperties { label: record.label.0.clone(), fields: send_fields(&record.properties) }
}

pub fn proto_node_properties_to_record(proto: &NodeProperties) -> (r: NodeRecord)
    ensures
        r@ == (NodeRecordView { label: proto@.name, properties: received_fields(proto@.fields) }),
{
    NodeRecord { label: Label(proto.label.clone()), properties: receive_fields(&proto.fields) }
}

pub fn edge_record_to_proto(record: &EdgeRecord) -> (r: EdgeProperties)
    ensures
        r@ == (FieldsView { name: record@.edge_type, fields: sent_fields(record@.properties) }),
{
    EdgeProperties {
        edge_type: record.edge_type.0.clone(),
        fields: send_fields(&record.properties),
    }
}

pub fn proto_edge_properties_to_record(proto: &EdgeProperties) -> (r: EdgeRecord)
    ensures
        r@ == (EdgeRecordView {
            edge_type: proto@.name,
            properties: received_fields(proto@.fields),
        }),
{
    EdgeRecord {
        edge_type: EdgeType(proto.edge_type.clone()),
        properties: receive_fields(&proto.fields),
    }
}

pub fn property_key_to_proto(key: &PropertyKey) -> (r: Value)
    ensures
        r@ == Some(sent_key(key@)),
{
    let kind = match key {
        PropertyKey::Int64(v) => Kind::Int64Value(*v),
        PropertyKey::Bool(v) => Kind::BoolValue(*v),
        PropertyKey::String(v) => Kind::StringValue(v.clone()),
        PropertyKey::Timestamp(v) => Kind::TimestampValue(*v),
    };
    Value { kind: Some(kind) }
}

pub fn proto_value_to_property_key(value: &Value) -> (r: Result<PropertyKey, Status>)
    ensures
        outcome(r) == received_key(value@),
{
    match &value.kind {
        Some(Kind::Int64Value(v)) => Ok(PropertyKey::Int64(*v)),
        Some(Kind::BoolValue(v)) => Ok(PropertyKey::Bool(*v)),
        Some(Kind::StringValue(v)) => Ok(PropertyKey::String(v.clone())),
        Some(Kind::TimestampValue(v)) => Ok(PropertyKey::Timestamp(*v)),
        Some(Kind::Float64Value(_)) | Some(Kind::BytesValue(_)) => Err(
            Status::invalid_argument("PropertyIndex has no key variant for float/bytes values"),
        ),
        None => Err(Status::invalid_argument("missing Value.kind")),
    }
}

pub fn literal_to_proto(literal: &Literal) -> (r: Value)
    ensures
        r@ == sent_literal(literal@),
{
    match literal {
        Literal::Int64(v) => Value { kind: Some(Kind::Int64Value(*v)) },
        Literal::Float64(v) => Value { kind: Some(Kind::Float64Value(*v)) },
        Literal::FloatText(_) => Value { kind: None },
        Literal::Bool(v) => Value { kind: Some(Kind::BoolValue(*v)) },
        Literal::String(v) => Value { kind: Some(Kind::StringValue(v.clone())) },
    }
}

pub fn proto_value_to_literal(value: &Value) -> (r: Result<Literal, Status>)
    ensures
        outcome(r) == received_literal(value@),
{
    match &value.kind {
        Some(Kind::Int64Value(v)) => Ok(Literal::Int64(*v)),
        Some(Kind::Float64Value(v)) => Ok(Literal::Float64(*v)),
        Some(Kind::BoolValue(v)) => Ok(Literal::Bool(*v)),
        Some(Kind::StringValue(v)) => Ok(Literal::String(v.clone())),
        Some(Kind::TimestampValue(_)) | Some(Kind::BytesValue(_)) => Err(
            Status::invalid_argument(
                "WHERE filters don't support timestamp/bytes literals in v1",
            ),
        ),
        None => Err(Status::invalid_argument("missing Value.kind")),
    }
}

pub fn comparison_op_to_proto(op: ComparisonOp) -> (r: i32)
    ensures
        r == sent_op(op),
{
    match op {
        ComparisonOp::Eq => 0,
        ComparisonOp::Ne => 1,
        ComparisonOp::Lt => 2,
        ComparisonOp::Lte => 3,
        ComparisonOp::Gt => 4,
        ComparisonOp::Gte => 5,
    }
}

pub fn proto_comparison_op_to_op(op: i32) -> (r: Result<ComparisonOp, Status>)
    ensures
        match r {
            Ok(o) => received_op(op) == Ok::<ComparisonOp, StatusView>(o),
            Err(e) => received_op(op) == Err::<ComparisonOp, StatusView>(e@),
        },
{
    match op {
        0 => Ok(ComparisonOp::Eq),
        1 => Ok(ComparisonOp::Ne),
        2 => Ok(ComparisonOp::Lt),
        3 => Ok(ComparisonOp::Lte),
        4 => Ok(ComparisonOp::Gt),
        5 => Ok(ComparisonOp::Gte),
        _ => Err(Status::invalid_argument("unknown ComparisonOp")),
    }
}

pub fn property_filter_to_proto(filter: &PropertyFilter) -> (r: FilterMessage)
    ensures
        r@ == sent_filter(filter@),
{
    FilterMessage {
        property: filter.property.clone(),
        op: comparison_op_to_proto(filter.op),
        value: Some(literal_to_proto(&filter.value)),
    }
}

pub fn proto_filter_to_property_filter(proto: &FilterMessage) -> (r: Result<PropertyFilter, Status>)
    ensures
        outcome(r) == received_filter(proto@),
{
    let op = match proto_comparison_op_to_op(proto.op) {
        Ok(op) => op,
        Err(e) => {
            return Err(e);
        },
    };
    match &proto.value {
        None => Err(Status::invalid_argument("missing filter value")),
        Some(v) => match proto_value_to_literal(v) {
            Err(e) => Err(e),
            Ok(value) => Ok(PropertyFilter { property: proto.property.clone(), op, value }),
        },
    }
}

pub fn filters_to_proto(filters: &Vec<PropertyFilter>) -> (r: Vec<FilterMessage>)
    ensures
        text::views(r@) == text::views(filters@).map_values(
            |f: PropertyFilterView| sent_filter(f),
        ),
{
    let mut out: Vec<FilterMessage> = Vec::new();
    let mut i: usize = 0;
    while i < filters.len()
        invariant
            i <= filters@.len(),
            out@.len() == i,
            forall|k: int| 0 <= k < i ==> (#[trigger] out@[k])@ == sent_filter(filters@[k]@),
        decreases filters.len() - i,
    {
        out.push(property_filter_to_proto(&filters[i]));
        i = i + 1;
    }
    assert(text::views(out@) =~= text::views(filters@).map_values(
        |f: PropertyFilterView| sent_filter(f),
    ));
    out
}

/// What a result stands for.
pub open spec fn filters_outcome(r: Result<Vec<PropertyFilter>, Status>) -> Result<
    Seq<PropertyFilterView>,
    StatusView,
> {
    match r {
        Ok(v) => Ok(text::views(v@)),
        Err(e) => Err(e@),
    }
}

proof fn lemma_filters_stop(fs: Seq<FilterMessageView>, n: int)
    requires
        0 <= n <= fs.len(),
        received_filters(fs.take(n)) is Err,
    ensures
        received_filters(fs) == received_filters(fs.take(n)),
    decreases fs.len() - n,
{
    if n == fs.len() {
        assert(fs.take(n) =~= fs);
    } else {
        assert(fs.take(n + 1).drop_last() =~= fs.take(n));
        lemma_filters_stop(fs, n + 1);
    }
}

pub fn proto_filters_to_filters(filters: &Vec<FilterMessage>) -> (r: Result<
    Vec<PropertyFilter>,
    Status,
>)
    ensures
        filters_outcome(r) == received_filters(text::views(filters@)),
{
    let ghost all = text::views(filters@);
    let mut out: Vec<PropertyFilter> = Vec::new();
    let mut i: usize = 0;
    proof {
        assert(all.take(0) =~= Seq::<FilterMessageView>::empty());
        assert(text::views(out@) =~= Seq::<PropertyFilterView>::empty());
    }
    while i < filters.len()
        invariant
            i <= filters@.len(),
            all == text::views(filters@),
            received_filters(all.take(i as int)) == Ok::<Seq<PropertyFilterView>, StatusView>(
                text::views(out@),
            ),
        decreases filters.len() - i,
    {
        proof {
            assert(all.take(i + 1).drop_last() =~= all.take(i as int));
            assert(all.take(i + 1).last() == filters@[i as int]@);
        }
        match proto_filter_to_property_filter(&filters[i]) {
            Err(e) => {
                proof {
                    lemma_filters_stop(all, i + 1);
                }
                return Err(e);
            },
            Ok(f) => {
                proof {
                    text::lemma_views_push(out@, f);
                }
                out.push(f);
            },
        }
        i = i + 1;
    }
    assert(all.take(all.len() as int) =~= all);
    Ok(out)
}

pub fn name_to_proto(name: &Option<String>) -> (r: String)
    ensures
        r@ == sent_name(text::option_view(*name)),
{
    match name {
        Some(n) => n.clone(),
        None => {
            let r = String::new();
            assert(r@ =~= Seq::<char>::empty());
            r
        },
    }
}

pub fn proto_name_to_option(name: &String) -> (r: Option<String>)
    ensures
        text::option_view(r) == received_name(name@),
{
    if name.as_str().unicode_len() == 0 {
        None
    } else {
        Some(name.clone())
    }
}

/// A key arrives as the key that was sent.
pub proof fn law_keys_arrive(k: PropertyKeyView)
    ensures
        received_key(Some(sent_key(k))) == Ok::<PropertyKeyView, StatusView>(k),
{
}

/// A filter arrives as the filter that was sent, unless its literal is a
/// number whose double is not known.
pub proof fn law_filters_arrive(f: PropertyFilterView)
    requires
        !(f.value is FloatText),
    ensures
        received_filter(sent_filter(f)) == Ok::<PropertyFilterView, StatusView>(f),
{
}

/// Of a record everything arrives but lists and nulls.
pub proof fn law_records_arrive_but_for_lists_and_nulls(
    properties: Map<Seq<char>, PropertyValueView>,
)
    ensures
        received_fields(sent_fields(properties)) == properties.restrict(
            Set::new(
                |n: Seq<char>|
                    properties.dom().contains(n) && !(properties[n] is List) && !(
                    properties[n] is Null),
            ),
        ),
{
    assert(received_fields(sent_fields(properties)) =~= properties.restrict(
        Set::new(
            |n: Seq<char>|
                properties.dom().contains(n) && !(properties[n] is List) && !(
                properties[n] is Null),
        ),
    ));
}

/// A name arrives as it was sent, unless it is empty.
pub proof fn law_names_arrive(name: Option<Seq<char>>)
    requires
        name matches Some(n) ==> n.len() > 0,
    ensures
        received_name(sent_name(name)) == name,
{
}

/// Operators travel as numbers, in the order `=`, `<>`, `<`, `<=`, `>`, `>=`
/// from zero on; any other number is refused as invalid.
pub proof fn law_operators_travel_as_numbers(op: ComparisonOp, n: i32)
    ensures
        sent_op(ComparisonOp::Eq) == 0,
        sent_op(ComparisonOp::Ne) == 1,
        sent_op(ComparisonOp::Lt) == 2,
        sent_op(ComparisonOp::Lte) == 3,
        sent_op(ComparisonOp::Gt) == 4,
        sent_op(ComparisonOp::Gte) == 5,
        received_op(sent_op(op)) == Ok::<ComparisonOp, StatusView>(op),
        received_op(n) is Ok <==> 0 <= n <= 5,
        received_op(n) matches Err(e) ==> e.code == Code::InvalidArgument,
{
}

/// A key is received where an integer, a truth value, a text or a timestamp was
/// sent, as what was sent; anything else is refused as invalid.
pub proof fn law_keys_are_received_as_sent(v: Option<KindView>)
    ensures
        match v {
            Some(KindView::Int64Value(x)) => received_key(v) == Ok::<PropertyKeyView, StatusView>(
                PropertyKeyView::Int64(x),
            ),
            Some(KindView::BoolValue(x)) => received_key(v) == Ok::<PropertyKeyView, StatusView>(
                PropertyKeyView::Bool(x),
            ),
            Some(KindView::StringValue(x)) => received_key(v) == Ok::<PropertyKeyView, StatusView>(
                PropertyKeyView::String(x),
            ),
            Some(KindView::TimestampValue(x)) => received_key(v) == Ok::<
                PropertyKeyView,
                StatusView,
            >(PropertyKeyView::Timestamp(x)),
            _ => received_key(v) matches Err(e) && e.code == Code::InvalidArgument,
        },
{
}

/// Filters are received one for one, in their order, where all of them can be.
pub proof fn law_filters_are_received_one_for_one(fs: Seq<FilterMessageView>)
    ensures
        received_filters(fs) is Ok <==> forall|i: int|
            0 <= i < fs.len() ==> received_filter(#[trigger] fs[i]) is Ok,
        received_filters(fs) matches Ok(all) ==> all.len() == fs.len() && forall|i: int|
            0 <= i < fs.len() ==> received_filter(#[trigger] fs[i]) == Ok::<
                PropertyFilterView,
                StatusView,
            >(all[i]),
    decreases fs.len(),
{
    if fs.len() > 0 {
        let shorter = fs.drop_last();
        let last = fs.len() - 1;
        law_filters_are_received_one_for_one(shorter);
        assert(fs[last] == fs.last());
        assert(forall|i: int| 0 <= i < last ==> #[trigger] shorter[i] == fs[i]);
        if received_filters(fs) is Ok {
            assert forall|i: int| 0 <= i < fs.len() implies received_filter(
                #[trigger] fs[i],
            ) == Ok::<PropertyFilterView, StatusView>((received_filters(fs)->Ok_0)[i]) by {
                if i < last {
                    assert(received_filter(shorter[i]) == Ok::<PropertyFilterView, StatusView>(
                        (received_filters(shorter)->Ok_0)[i],
                    ));
                }
            }
        }
        if forall|i: int| 0 <= i < fs.len() ==> received_filter(#[trigger] fs[i]) is Ok {
            assert forall|i: int| 0 <= i < shorter.len() implies received_filter(
                #[trigger] shorter[i],
            ) is Ok by {
                assert(received_filter(fs[i]) is Ok);
            }
            assert(received_filter(fs[last]) is Ok);
        }
    }
}

/// A filter is received with its property, under the operator that its number
/// stands for, with the number, truth value or text that was sent. Anything
/// else is refused as invalid.
pub proof fn law_a_filter_is_received_as_sent(f: FilterMessageView)
    ensures
        received_filter(f) matches Ok(g) ==> g.property == f.property && sent_op(g.op) == f.op
            && match g.value {
            LiteralView::Int64(x) => f.value == Some(Some(KindView::Int64Value(x))),
            LiteralView::Float64(x) => f.value == Some(Some(KindView::Float64Value(x))),
            LiteralView::Bool(x) => f.value == Some(Some(KindView::BoolValue(x))),
            LiteralView::String(x) => f.value == Some(Some(KindView::StringValue(x))),
            LiteralView::FloatText(_) => false,
        },
        received_filter(f) is Ok <==> 0 <= f.op <= 5 && (f.value matches Some(Some(k)) && !(
        k is TimestampValue) && !(k is BytesValue)),
        received_filter(f) matches Err(e) ==> e.code == Code::InvalidArgument,
{
}

} // verus!
