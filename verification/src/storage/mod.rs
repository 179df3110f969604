//! What the tables of the durable store hold: rows, property values and the
//! names of the tables. The engine only reads them.
use crate::maps::NamedMap;
use crate::schema::{EdgeId, EdgeType, Label, NodeId};
use crate::text;
use crate::text::Duplicate;
use vstd::prelude::*;
use vstd::string::*;

pub mod columns;
pub mod written;

verus! {

/// A snapshot of a table, pinned for one rebuild of the index.
#[derive(Clone, Copy, Debug, PartialEq, Eq, Hash, Structural)]
pub struct SnapshotId(pub i64);

/// The value of a property. `Float64` holds the bit pattern of an IEEE 754
/// double, `Timestamp` microseconds since the Unix epoch.
#[derive(Debug, PartialEq)]
pub enum PropertyValue {
    Int64(i64),
    Float64(u64),
    Bool(bool),
    String(String),
    Timestamp(i64),
    Bytes(Vec<u8>),
    List(Vec<PropertyValue>),
    Null,
}

pub enum PropertyValueView {
    Int64(i64),
    Float64(u64),
    Bool(bool),
    String(Seq<char>),
    Timestamp(i64),
    Bytes(Seq<u8>),
    List(Seq<PropertyValueView>),
    Null,
}

pub open spec fn value_view(v: PropertyValue) -> PropertyValueView
    decreases v,
{
    match v {
        PropertyValue::Int64(x) => PropertyValueView::Int64(x),
        PropertyValue::Float64(x) => PropertyValueView::Float64(x),
        PropertyValue::Bool(x) => PropertyValueView::Bool(x),
        PropertyValue::String(x) => PropertyValueView::String(x@),
        PropertyValue::Timestamp(x) => PropertyValueView::Timestamp(x),
        PropertyValue::Bytes(x) => PropertyValueView::Bytes(x@),
        PropertyValue::List(items) => PropertyValueView::List(
            Seq::new(
                items@.len(),
                |i: int|
                    if 0 <= i < items@.len() {
                        value_view(items@[i])
                    } else {
                        arbitrary()
                    },
            ),
        ),
        PropertyValue::Null => PropertyValueView::Null,
    }
}

impl View for PropertyValue {
    type V = PropertyValueView;

    open spec fn view(&self) -> PropertyValueView {
        value_view(*self)
    }
}

pub proof fn lemma_list_view(items: Vec<PropertyValue>)
    ensures
        PropertyValue::List(items)@ == PropertyValueView::List(text::views(items@)),
{
    assert(PropertyValue::List(items)@->List_0 =~= text::views(items@));
}

pub(crate) fn duplicate_bytes(bytes: &Vec<u8>) -> (r: Vec<u8>)
    ensures
        r@ == bytes@,
{
    let mut out: Vec<u8> = Vec::new();
    let mut i: usize = 0;
    while i < bytes.len()
        invariant
            i <= bytes.len(),
            out@ == bytes@.take(i as int),
        decreases bytes.len() - i,
    {
        out.push(bytes[i]);
        assert(out@ =~= bytes@.take(i + 1));
        i = i + 1;
    }
    assert(out@ =~= bytes@);
    out
}

fn duplicate_value(v: &PropertyValue) -> (r: PropertyValue)
    ensures
        r@ == v@,
    decreases v,
{
    match v {
        PropertyValue::Int64(x) => PropertyValue::Int64(*x),
        PropertyValue::Float64(x) => PropertyValue::Float64(*x),
        PropertyValue::Bool(x) => PropertyValue::Bool(*x),
        PropertyValue::String(x) => PropertyValue::String(x.clone()),
        PropertyValue::Timestamp(x) => PropertyValue::Timestamp(*x),
        PropertyValue::Bytes(x) => PropertyValue::Bytes(duplicate_bytes(x)),
        PropertyValue::List(items) => {
            let mut out: Vec<PropertyValue> = Vec::new();
            let mut i: usize = 0;
            while i < items.len()
                invariant
                    i <= items.len(),
                    out@.len() == i,
                    *v == PropertyValue::List(*items),
                    forall|k: int| 0 <= k < i ==> (#[trigger] out@[k])@ == items@[k]@,
                decreases items.len() - i,
            {
                assert(decreases_to!(v => v->List_0@[i as int]));
                out.push(duplicate_value(&items[i]));
                i = i + 1;
            }
            proof {
                lemma_list_view(*items);
                lemma_list_view(out);
                assert(text::views(out@) =~= text::views(items@));
            }
            PropertyValue::List(out)
        },
        PropertyValue::Null => PropertyValue::Null,
    }
}

impl Duplicate for PropertyValue {
    fn duplicate(&self) -> (r: Self) {
        duplicate_value(self)
    }
}

impl Clone for PropertyValue {
    fn clone(&self) -> (r: Self)
        ensures
            r@ == self@,
    {
        duplicate_value(self)
    }
}

/// The properties of a row, by name.
pub type Properties = NamedMap<PropertyValue>;

/// What a map of properties holds.
pub open spec fn property_views(m: Map<Seq<char>, PropertyValue>) -> Map<
    Seq<char>,
    PropertyValueView,
> {
    m.map_values(|v: PropertyValue| v@)
}

pub proof fn lemma_property_views_insert(
    m: Map<Seq<char>, PropertyValue>,
    name: Seq<char>,
    v: PropertyValue,
)
    ensures
        property_views(m.insert(name, v)) == property_views(m).insert(name, v@),
{
    assert(property_views(m.insert(name, v)) =~= property_views(m).insert(name, v@));
}

/// A row of a node table.
#[derive(Clone, Debug)]
pub struct NodeRow {
    pub id: NodeId,
    pub properties: Properties,
}

pub struct NodeRowView {
    pub id: NodeId,
    pub properties: Map<Seq<char>, PropertyValueView>,
}

impl View for NodeRow {
    type V = NodeRowView;

    open spec fn view(&self) -> NodeRowView {
        NodeRowView { id: self.id, properties: property_views(self.properties@) }
    }
}

/// A row of an edge table.
#[derive(Clone, Debug)]
pub struct EdgeRow {
    pub id: EdgeId,
    pub src: NodeId,
    pub dst: NodeId,
    pub properties: Properties,
}

pub struct EdgeRowView {
    pub id: EdgeId,
    pub src: NodeId,
    pub dst: NodeId,
    pub properties: Map<Seq<char>, PropertyValueView>,
}

impl View for EdgeRow {
    type V = EdgeRowView;

    open spec fn view(&self) -> EdgeRowView {
        EdgeRowView {
            id: self.id,
            src: self.src,
            dst: self.dst,
            properties: property_views(self.properties@),
        }
    }
}

/// Why the store could not be read.
#[derive(Clone, Debug, PartialEq, Eq)]
pub enum StorageError {
    TableNotFound(String),
    SnapshotResolution(String),
    NonConformingRow(String),
    Backend(String),
}

pub enum StorageErrorView {
    TableNotFound(Seq<char>),
    SnapshotResolution(Seq<char>),
    NonConformingRow(Seq<char>),
    Backend(Seq<char>),
}

impl View for StorageError {
    type V = StorageErrorView;

    open spec fn view(&self) -> StorageErrorView {
        match self {
            StorageError::TableNotFound(m) => StorageErrorView::TableNotFound(m@),
            StorageError::SnapshotResolution(m) => StorageErrorView::SnapshotResolution(m@),
            StorageError::NonConformingRow(m) => StorageErrorView::NonConformingRow(m@),
            StorageError::Backend(m) => StorageErrorView::Backend(m@),
        }
    }
}

impl StorageErrorView {
    /// The error in words.
    pub open spec fn text(self) -> Seq<char> {
        match self {
            StorageErrorView::TableNotFound(m) => "table not found for "@ + m,
            StorageErrorView::SnapshotResolution(m) => "snapshot resolution failed: "@ + m,
            StorageErrorView::NonConformingRow(m) => "row does not conform to schema: "@ + m,
            StorageErrorView::Backend(m) => "underlying Iceberg/object-store error: "@ + m,
        }
    }
}

impl StorageError {
    pub fn message(&self) -> (r: String)
        ensures
            r@ == self@.text(),
    {
        let (head, m) = match self {
            StorageError::TableNotFound(m) => ("table not found for ", m),
            StorageError::SnapshotResolution(m) => ("snapshot resolution failed: ", m),
            StorageError::NonConformingRow(m) => ("row does not conform to schema: ", m),
            StorageError::Backend(m) => ("underlying Iceberg/object-store error: ", m),
        };
        let mut s: String = head.to_owned();
        s.append(m.as_str());
        s
    }
}

/// A string in lower case, as Unicode defines it.
pub uninterp spec fn lowercase_of(s: Seq<char>) -> Seq<char>;

/// `str::to_lowercase`: a function of the characters alone. Its value is
/// named `lowercase_of`; nothing else is claimed of it.
#[verifier::external_body]
fn to_lowercase(s: &str) -> (r: String)
    ensures
        r@ == lowercase_of(s@),
{
    s.to_lowercase()
}

/// The table of a node label whose name in lower case is given.
pub fn node_table_of(lowercase: &str) -> (r: String)
    ensures
        r@ == "nodes_"@ + lowercase@,
{
    let mut name: String = "nodes_".to_owned();
    name.append(lowercase);
    name
}

/// The table of an edge type whose name in lower case is given.
pub fn edge_table_of(lowercase: &str) -> (r: String)
    ensures
        r@ == "edges_"@ + lowercase@,
{
    let mut name: String = "edges_".to_owned();
    name.append(lowercase);
    name
}

/// The table that holds the nodes of a label.
pub fn node_table_name(label: &Label) -> (r: String)
    ensures
        r@ == "nodes_"@ + lowercase_of(label@),
{
    let lowercase = to_lowercase(label.0.as_str());
    node_table_of(lowercase.as_str())
}

/// The table that holds the edges of a type.
pub fn edge_table_name(edge_type: &EdgeType) -> (r: String)
    ensures
        r@ == "edges_"@ + lowercase_of(edge_type@),
{
    let lowercase = to_lowercase(edge_type.0.as_str());
    edge_table_of(lowercase.as_str())
}

} // verus!
