//! The data model: identities, property types, node and edge declarations,
//! and the schema that holds them.
use crate::maps::Same;
use crate::text;
use vstd::prelude::*;

pub mod change;
pub mod evolution;
pub mod grammar;
pub mod parser;
pub mod partitioning;
pub mod writing;

verus! {

/// Identity of a node, unique over the whole graph.
#[derive(Clone, Copy, Debug, PartialEq, Eq, Hash, PartialOrd, Ord, Structural)]
pub struct NodeId(pub u64);

/// Identity of an edge, unique over the whole graph: two nodes may be joined
/// by several edges of one type.
#[derive(Clone, Copy, Debug, PartialEq, Eq, Hash, PartialOrd, Ord, Structural)]
pub struct EdgeId(pub u64);

impl Same for NodeId {
    fn is_same(&self, other: &Self) -> (r: bool) {
        self.0 == other.0
    }
}

impl Same for EdgeId {
    fn is_same(&self, other: &Self) -> (r: bool) {
        self.0 == other.0
    }
}

/// The one type of a node.
#[derive(Clone, Debug, PartialEq, Eq, Hash, PartialOrd, Ord)]
pub struct Label(pub String);

impl View for Label {
    type V = Seq<char>;

    open spec fn view(&self) -> Seq<char> {
        self.0@
    }
}

/// The one type of an edge.
#[derive(Clone, Debug, PartialEq, Eq, Hash, PartialOrd, Ord)]
pub struct EdgeType(pub String);

impl View for EdgeType {
    type V = Seq<char>;

    open spec fn view(&self) -> Seq<char> {
        self.0@
    }
}

/// The types that a property can have.
#[derive(Debug, PartialEq, Eq)]
pub enum ScalarType {
    Int64,
    Float64,
    Bool,
    String,
    Timestamp,
    Bytes,
    List(Box<ScalarType>),
    Vector { dim: u32 },
}

impl Clone for ScalarType {
    fn clone(&self) -> (r: Self)
        ensures
            r == *self,
        decreases self,
    {
        match self {
            ScalarType::Int64 => ScalarType::Int64,
            ScalarType::Float64 => ScalarType::Float64,
            ScalarType::Bool => ScalarType::Bool,
            ScalarType::String => ScalarType::String,
            ScalarType::Timestamp => ScalarType::Timestamp,
            ScalarType::Bytes => ScalarType::Bytes,
            ScalarType::List(element) => ScalarType::List(Box::new((&**element).clone())),
            ScalarType::Vector { dim } => ScalarType::Vector { dim: *dim },
        }
    }
}

/// A declared property of a node label or an edge type.
#[derive(Clone, Debug, PartialEq, Eq)]
pub struct PropertyDef {
    pub name: String,
    pub ty: ScalarType,
    pub optional: bool,
    pub indexed: bool,
}

pub struct PropertyDefView {
    pub name: Seq<char>,
    pub ty: ScalarType,
    pub optional: bool,
    pub indexed: bool,
}

impl View for PropertyDef {
    type V = PropertyDefView;

    open spec fn view(&self) -> PropertyDefView {
        PropertyDefView {
            name: self.name@,
            ty: self.ty,
            optional: self.optional,
            indexed: self.indexed,
        }
    }
}

/// A declared node label with its properties, in the order of declaration.
#[derive(Clone, Debug, PartialEq, Eq)]
pub struct NodeDef {
    pub label: Label,
    pub properties: Vec<PropertyDef>,
}

pub struct NodeDefView {
    pub label: Seq<char>,
    pub properties: Seq<PropertyDefView>,
}

impl View for NodeDef {
    type V = NodeDefView;

    open spec fn view(&self) -> NodeDefView {
        NodeDefView { label: self.label@, properties: text::views(self.properties@) }
    }
}

/// A declared edge type with the labels of its two ends and its properties.
#[derive(Clone, Debug, PartialEq, Eq)]
pub struct EdgeDef {
    pub edge_type: EdgeType,
    pub from: Label,
    pub to: Label,
    pub properties: Vec<PropertyDef>,
}

pub struct EdgeDefView {
    pub edge_type: Seq<char>,
    pub from: Seq<char>,
    pub to: Seq<char>,
    pub properties: Seq<PropertyDefView>,
}

impl View for EdgeDef {
    type V = EdgeDefView;

    open spec fn view(&self) -> EdgeDefView {
        EdgeDefView {
            edge_type: self.edge_type@,
            from: self.from@,
            to: self.to@,
            properties: text::views(self.properties@),
        }
    }
}

/// A schema: its node declarations in the order of their labels and its edge
/// declarations in the order of their types, none of them twice.
#[derive(Clone, Debug, PartialEq, Eq)]
pub struct Schema {
    pub version: String,
    pub nodes: Vec<NodeDef>,
    pub edges: Vec<EdgeDef>,
}

pub struct SchemaView {
    pub version: Seq<char>,
    pub nodes: Seq<NodeDefView>,
    pub edges: Seq<EdgeDefView>,
}

impl View for Schema {
    type V = SchemaView;

    open spec fn view(&self) -> SchemaView {
        SchemaView {
            version: self.version@,
            nodes: text::views(self.nodes@),
            edges: text::views(self.edges@),
        }
    }
}

/// The declaration of `label` among `nodes`.
pub open spec fn find_node(nodes: Seq<NodeDefView>, label: Seq<char>) -> Option<NodeDefView>
    decreases nodes.len(),
{
    if nodes.len() == 0 {
        None
    } else if nodes[0].label == label {
        Some(nodes[0])
    } else {
        find_node(nodes.drop_first(), label)
    }
}

/// The declaration of `edge_type` among `edges`.
pub open spec fn find_edge(edges: Seq<EdgeDefView>, edge_type: Seq<char>) -> Option<EdgeDefView>
    decreases edges.len(),
{
    if edges.len() == 0 {
        None
    } else if edges[0].edge_type == edge_type {
        Some(edges[0])
    } else {
        find_edge(edges.drop_first(), edge_type)
    }
}

/// The first declaration of the property `name` among `properties`.
pub open spec fn find_property(
    properties: Seq<PropertyDefView>,
    name: Seq<char>,
) -> Option<PropertyDefView>
    decreases properties.len(),
{
    if properties.len() == 0 {
        None
    } else if properties[0].name == name {
        Some(properties[0])
    } else {
        find_property(properties.drop_first(), name)
    }
}

pub open spec fn sorted_nodes(nodes: Seq<NodeDefView>) -> bool {
    forall|i: int, j: int|
        0 <= i < j < nodes.len() ==> text::lex_lt((#[trigger] nodes[i]).label, (#[trigger] nodes[j]).label)
}

pub open spec fn sorted_edges(edges: Seq<EdgeDefView>) -> bool {
    forall|i: int, j: int|
        0 <= i < j < edges.len() ==> text::lex_lt(
            (#[trigger] edges[i]).edge_type,
            (#[trigger] edges[j]).edge_type,
        )
}

impl SchemaView {
    /// What every schema keeps: declarations are ordered and unique, and each
    /// edge type joins declared labels.
    pub open spec fn wf(self) -> bool {
        &&& sorted_nodes(self.nodes)
        &&& sorted_edges(self.edges)
        &&& forall|i: int|
            0 <= i < self.edges.len() ==> find_node(
                self.nodes,
                (#[trigger] self.edges[i]).from,
            ) is Some && find_node(self.nodes, self.edges[i].to) is Some
    }
}

/// Finding a property among declarations.
pub fn property_def<'a>(properties: &'a Vec<PropertyDef>, name: &str) -> (r: Option<
    &'a PropertyDef,
>)
    ensures
        match r {
            Some(p) => find_property(text::views(properties@), name@) == Some(p@),
            None => find_property(text::views(properties@), name@) is None,
        },
{
    let ghost all = text::views(properties@);
    let mut i: usize = 0;
    assert(all.skip(0) =~= all);
    while i < properties.len()
        invariant
            i <= properties.len(),
            all == text::views(properties@),
            find_property(all, name@) == find_property(all.skip(i as int), name@),
        decreases properties.len() - i,
    {
        assert(all.skip(i as int)[0] == properties[i as int]@);
        assert(all.skip(i as int).drop_first() =~= all.skip(i + 1));
        if text::str_eq(properties[i].name.as_str(), name) {
            return Some(&properties[i]);
        }
        i = i + 1;
    }
    None
}

impl Schema {
    /// The declaration of a node label.
    pub fn node_def(&self, label: &Label) -> (r: Option<&NodeDef>)
        ensures
            match r {
                Some(n) => find_node(self@.nodes, label@) == Some(n@),
                None => find_node(self@.nodes, label@) is None,
            },
    {
        let ghost all = self@.nodes;
        let mut i: usize = 0;
        assert(all.skip(0) =~= all);
        while i < self.nodes.len()
            invariant
                i <= self.nodes.len(),
                all == self@.nodes,
                find_node(all, label@) == find_node(all.skip(i as int), label@),
            decreases self.nodes.len() - i,
        {
            assert(all.skip(i as int)[0] == self.nodes[i as int]@);
            assert(all.skip(i as int).drop_first() =~= all.skip(i + 1));
            if self.nodes[i].label.0 == label.0 {
                return Some(&self.nodes[i]);
            }
            i = i + 1;
        }
        None
    }

    /// The declaration of an edge type.
    pub fn edge_def(&self, edge_type: &EdgeType) -> (r: Option<&EdgeDef>)
        ensures
            match r {
                Some(e) => find_edge(self@.edges, edge_type@) == Some(e@),
                None => find_edge(self@.edges, edge_type@) is None,
            },
    {
        let ghost all = self@.edges;
        let mut i: usize = 0;
        assert(all.skip(0) =~= all);
        while i < self.edges.len()
            invariant
                i <= self.edges.len(),
                all == self@.edges,
                find_edge(all, edge_type@) == find_edge(all.skip(i as int), edge_type@),
            decreases self.edges.len() - i,
        {
            assert(all.skip(i as int)[0] == self.edges[i as int]@);
            assert(all.skip(i as int).drop_first() =~= all.skip(i + 1));
            if self.edges[i].edge_type.0 == edge_type.0 {
                return Some(&self.edges[i]);
            }
            i = i + 1;
        }
        None
    }
}

/// Why a schema text was refused.
#[derive(Clone, Debug, PartialEq, Eq)]
pub enum SchemaError {
    Parse(String),
}

impl View for SchemaError {
    type V = Seq<char>;

    open spec fn view(&self) -> Seq<char> {
        match self {
            SchemaError::Parse(message) => message@,
        }
    }
}

} // verus!
