//! The grammar of the schema language, its parser and the checks that make a
//! schema of what was read.
//!
//! A schema is built whole or not at all: a label or an edge type that is
//! declared twice, or an edge end that names no label, refuses the text.
use crate::schema::{
    EdgeDef, EdgeDefView, EdgeType, Label, NodeDef, NodeDefView, PropertyDef, PropertyDefView,
    ScalarType, Schema, SchemaError, SchemaView,
};
use crate::schema;
use crate::text;
use crate::text::{Source, SourceView};
use vstd::prelude::*;
use vstd::string::*;

verus! {

/// `Int64 | Float64 | Bool | String | Timestamp | Bytes`.
pub open spec fn simple_type_at(src: SourceView, pos: int) -> Option<(ScalarType, int)> {
    match text::word_at(src, pos, "Int64"@) {
        Some(p) => Some((ScalarType::Int64, p)),
        None => match text::word_at(src, pos, "Float64"@) {
            Some(p) => Some((ScalarType::Float64, p)),
            None => match text::word_at(src, pos, "Bool"@) {
                Some(p) => Some((ScalarType::Bool, p)),
                None => match text::word_at(src, pos, "String"@) {
                    Some(p) => Some((ScalarType::String, p)),
                    None => match text::word_at(src, pos, "Timestamp"@) {
                        Some(p) => Some((ScalarType::Timestamp, p)),
                        None => match text::word_at(src, pos, "Bytes"@) {
                            Some(p) => Some((ScalarType::Bytes, p)),
                            None => None,
                        },
                    },
                },
            },
        },
    }
}

/// `Vector < Float32 , n >`.
pub open spec fn vector_type_at(src: SourceView, pos: int) -> Option<(ScalarType, int)> {
    match text::word_at(src, pos, "Vector"@) {
        Some(p) => match text::word_at(src, p, "<"@) {
            Some(q) => match text::word_at(src, q, "Float32"@) {
                Some(r) => match text::word_at(src, r, ","@) {
                    Some(t) => match text::number_at(src, t, u32::MAX as int) {
                        Some((dim, u)) => match text::word_at(src, u, ">"@) {
                            Some(e) => Some((ScalarType::Vector { dim: dim as u32 }, e)),
                            None => None,
                        },
                        None => None,
                    },
                    None => None,
                },
                None => None,
            },
            None => None,
        },
        None => None,
    }
}

/// `List <`.
pub open spec fn list_head_at(src: SourceView, pos: int) -> Option<int> {
    match text::word_at(src, pos, "List"@) {
        Some(p) => text::word_at(src, p, "<"@),
        None => None,
    }
}

/// `List < type >`.
pub open spec fn list_type_at(src: SourceView, pos: int) -> Option<(ScalarType, int)>
    decreases src.chars.len() - pos, 0int,
{
    match list_head_at(src, pos) {
        Some(p) => if pos < p <= src.chars.len() {
            match scalar_type_at(src, p) {
                Some((element, q)) => match text::word_at(src, q, ">"@) {
                    Some(e) => Some((ScalarType::List(Box::new(element)), e)),
                    None => None,
                },
                None => None,
            }
        } else {
            None
        },
        None => None,
    }
}

/// A property type.
pub open spec fn scalar_type_at(src: SourceView, pos: int) -> Option<(ScalarType, int)>
    decreases src.chars.len() - pos, 1int,
{
    match list_type_at(src, pos) {
        Some(r) => Some(r),
        None => match vector_type_at(src, pos) {
            Some(r) => Some(r),
            None => simple_type_at(src, pos),
        },
    }
}

/// `word?`: whether it stands there, and the position behind it.
pub open spec fn marker_at(src: SourceView, pos: int, word: Seq<char>) -> (bool, int) {
    match text::word_at(src, pos, word) {
        Some(p) => (true, p),
        None => (false, pos),
    }
}

/// `@indexed? name : type ??`.
pub open spec fn property_decl_at(src: SourceView, pos: int) -> Option<(PropertyDefView, int)> {
    let (indexed, p) = marker_at(src, pos, "@indexed"@);
    match text::ident_at(src, p) {
        Some((name, q)) => match text::word_at(src, q, ":"@) {
            Some(r) => match scalar_type_at(src, r) {
                Some((ty, t)) => {
                    let (optional, e) = marker_at(src, t, "?"@);
                    Some((PropertyDefView { name, ty, optional, indexed }, e))
                },
                None => None,
            },
            None => None,
        },
        None => None,
    }
}

/// `property*`.
pub open spec fn properties_at(src: SourceView, pos: int) -> (Seq<PropertyDefView>, int)
    decreases src.chars.len() - pos,
{
    match property_decl_at(src, pos) {
        Some((property, q)) => if pos < q <= src.chars.len() {
            let (rest, e) = properties_at(src, q);
            (seq![property] + rest, e)
        } else {
            (seq![], pos)
        },
        None => (seq![], pos),
    }
}

/// `field : Label`.
pub open spec fn label_field_at(src: SourceView, pos: int, field: Seq<char>) -> Option<
    (Seq<char>, int),
> {
    match text::word_at(src, pos, field) {
        Some(p) => match text::word_at(src, p, ":"@) {
            Some(q) => text::ident_at(src, q),
            None => None,
        },
        None => None,
    }
}

/// `keyword Name {`.
pub open spec fn decl_head_at(src: SourceView, pos: int, keyword: Seq<char>) -> Option<
    (Seq<char>, int),
> {
    match text::word_at(src, pos, keyword) {
        Some(p) => match text::ident_at(src, p) {
            Some((name, q)) => match text::word_at(src, q, "{"@) {
                Some(e) => Some((name, e)),
                None => None,
            },
            None => None,
        },
        None => None,
    }
}

/// `id : NodeId`.
pub open spec fn id_field_at(src: SourceView, pos: int) -> Option<int> {
    match text::word_at(src, pos, "id"@) {
        Some(p) => match text::word_at(src, p, ":"@) {
            Some(q) => text::word_at(src, q, "NodeId"@),
            None => None,
        },
        None => None,
    }
}

/// `node Label { id: NodeId property* }`.
pub open spec fn node_decl_at(src: SourceView, pos: int) -> Option<(NodeDefView, int)> {
    match decl_head_at(src, pos, "node"@) {
        Some((label, p)) => match id_field_at(src, p) {
            Some(q) => {
                let (properties, r) = properties_at(src, q);
                match text::word_at(src, r, "}"@) {
                    Some(e) => Some((NodeDefView { label, properties }, e)),
                    None => None,
                }
            },
            None => None,
        },
        None => None,
    }
}

/// `edge TYPE { from: Label to: Label property* }`.
pub open spec fn edge_decl_at(src: SourceView, pos: int) -> Option<(EdgeDefView, int)> {
    match decl_head_at(src, pos, "edge"@) {
        Some((edge_type, p)) => match label_field_at(src, p, "from"@) {
            Some((from, q)) => match label_field_at(src, q, "to"@) {
                Some((to, r)) => {
                    let (properties, t) = properties_at(src, r);
                    match text::word_at(src, t, "}"@) {
                        Some(e) => Some((EdgeDefView { edge_type, from, to, properties }, e)),
                        None => None,
                    }
                },
                None => None,
            },
            None => None,
        },
        None => None,
    }
}

/// One declaration of a schema.
pub enum DeclView {
    Node(NodeDefView),
    Edge(EdgeDefView),
}

pub open spec fn decl_at(src: SourceView, pos: int) -> Option<(DeclView, int)> {
    match node_decl_at(src, pos) {
        Some((node, e)) => Some((DeclView::Node(node), e)),
        None => match edge_decl_at(src, pos) {
            Some((edge, e)) => Some((DeclView::Edge(edge), e)),
            None => None,
        },
    }
}

/// `(node | edge)*`.
pub open spec fn decls_at(src: SourceView, pos: int) -> (Seq<DeclView>, int)
    decreases src.chars.len() - pos,
{
    match decl_at(src, pos) {
        Some((decl, q)) => if pos < q <= src.chars.len() {
            let (rest, e) = decls_at(src, q);
            (seq![decl] + rest, e)
        } else {
            (seq![], pos)
        },
        None => (seq![], pos),
    }
}

/// `schema version { declaration* }` and nothing else: the version and the
/// declarations in the order they are written.
pub open spec fn declarations_of(source: Seq<char>) -> Option<(Seq<char>, Seq<DeclView>)> {
    let src = SourceView { chars: source, comments: true };
    match decl_head_at(src, 0, "schema"@) {
        Some((version, p)) => {
            let (decls, q) = decls_at(src, p);
            match text::word_at(src, q, "}"@) {
                Some(e) => if text::skip_blank(src, e) == source.len() {
                    Some((version, decls))
                } else {
                    None
                },
                None => None,
            }
        },
        None => None,
    }
}

/// `nodes` with `def` at the place that the order of labels gives it.
pub open spec fn insert_node(nodes: Seq<NodeDefView>, def: NodeDefView) -> Seq<NodeDefView>
    decreases nodes.len(),
{
    if nodes.len() == 0 {
        seq![def]
    } else if text::lex_lt(def.label, nodes[0].label) {
        seq![def] + nodes
    } else {
        seq![nodes[0]] + insert_node(nodes.drop_first(), def)
    }
}

/// `edges` with `def` at the place that the order of edge types gives it.
pub open spec fn insert_edge(edges: Seq<EdgeDefView>, def: EdgeDefView) -> Seq<EdgeDefView>
    decreases edges.len(),
{
    if edges.len() == 0 {
        seq![def]
    } else if text::lex_lt(def.edge_type, edges[0].edge_type) {
        seq![def] + edges
    } else {
        seq![edges[0]] + insert_edge(edges.drop_first(), def)
    }
}

/// The declarations taken up one by one, or the first one that repeats a
/// label or an edge type.
pub open spec fn declare(
    decls: Seq<DeclView>,
    nodes: Seq<NodeDefView>,
    edges: Seq<EdgeDefView>,
) -> Result<(Seq<NodeDefView>, Seq<EdgeDefView>), Seq<char>>
    decreases decls.len(),
{
    if decls.len() == 0 {
        Ok((nodes, edges))
    } else {
        match decls[0] {
            DeclView::Node(def) => if schema::find_node(nodes, def.label) is Some {
                Err("duplicate node label: "@ + def.label)
            } else {
                declare(decls.drop_first(), insert_node(nodes, def), edges)
            },
            DeclView::Edge(def) => if schema::find_edge(edges, def.edge_type) is Some {
                Err("duplicate edge type: "@ + def.edge_type)
            } else {
                declare(decls.drop_first(), nodes, insert_edge(edges, def))
            },
        }
    }
}

/// What is said of the first edge that has an end with an unknown label.
pub open spec fn endpoint_error(nodes: Seq<NodeDefView>, edges: Seq<EdgeDefView>) -> Option<
    Seq<char>,
>
    decreases edges.len(),
{
    if edges.len() == 0 {
        None
    } else if schema::find_node(nodes, edges[0].from) is None {
        Some(
            "edge "@ + edges[0].edge_type + " references unknown source label "@ + edges[0].from,
        )
    } else if schema::find_node(nodes, edges[0].to) is None {
        Some("edge "@ + edges[0].edge_type + " references unknown target label "@ + edges[0].to)
    } else {
        endpoint_error(nodes, edges.drop_first())
    }
}

/// What a schema text means: a schema, or why it is refused.
pub open spec fn schema_of(source: Seq<char>) -> Result<SchemaView, Seq<char>> {
    match declarations_of(source) {
        None => Err("invalid schema syntax"@),
        Some((version, decls)) => match declare(decls, seq![], seq![]) {
            Err(message) => Err(message),
            Ok((nodes, edges)) => match endpoint_error(nodes, edges) {
                Some(message) => Err(message),
                None => Ok(SchemaView { version, nodes, edges }),
            },
        },
    }
}

proof fn lemma_insert_node(nodes: Seq<NodeDefView>, def: NodeDefView)
    requires
        schema::sorted_nodes(nodes),
        schema::find_node(nodes, def.label) is None,
    ensures
        schema::sorted_nodes(insert_node(nodes, def)),
        insert_node(nodes, def).len() == nodes.len() + 1,
        forall|k: int|
            0 <= k < nodes.len() + 1 ==> #[trigger] insert_node(nodes, def)[k] == def
                || nodes.contains(insert_node(nodes, def)[k]),
    decreases nodes.len(),
{
    if nodes.len() > 0 {
        if text::lex_lt(def.label, nodes[0].label) {
            let r = seq![def] + nodes;
            assert forall|i: int, j: int| 0 <= i < j < r.len() implies text::lex_lt(
                (#[trigger] r[i]).label,
                (#[trigger] r[j]).label,
            ) by {
                if i == 0 && j > 1 {
                    text::lemma_lex_transitive(def.label, nodes[0].label, nodes[j - 1].label);
                }
            }
            assert forall|k: int| 0 <= k < r.len() implies #[trigger] r[k] == def
                || nodes.contains(r[k]) by {
                if k > 0 {
                    assert(r[k] == nodes[k - 1]);
                }
            }
        } else {
            let tail = nodes.drop_first();
            let rest = insert_node(tail, def);
            lemma_insert_node(tail, def);
            text::lemma_lex_total(def.label, nodes[0].label);
            let r = seq![nodes[0]] + rest;
            assert forall|i: int, j: int| 0 <= i < j < r.len() implies text::lex_lt(
                (#[trigger] r[i]).label,
                (#[trigger] r[j]).label,
            ) by {
                if i == 0 {
                    assert(r[j] == rest[j - 1]);
                    if rest[j - 1] != def {
                        let m = choose|m: int| 0 <= m < tail.len() && tail[m] == rest[j - 1];
                        assert(tail[m] == nodes[m + 1]);
                    }
                } else {
                    assert(r[i] == rest[i - 1] && r[j] == rest[j - 1]);
                }
            }
            assert forall|k: int| 0 <= k < r.len() implies #[trigger] r[k] == def
                || nodes.contains(r[k]) by {
                if k > 0 && rest[k - 1] != def {
                    let m = choose|m: int| 0 <= m < tail.len() && tail[m] == rest[k - 1];
                    assert(tail[m] == nodes[m + 1]);
                }
            }
        }
    }
}

proof fn lemma_insert_edge(edges: Seq<EdgeDefView>, def: EdgeDefView)
    requires
        schema::sorted_edges(edges),
        schema::find_edge(edges, def.edge_type) is None,
    ensures
        schema::sorted_edges(insert_edge(edges, def)),
        insert_edge(edges, def).len() == edges.len() + 1,
        forall|k: int|
            0 <= k < edges.len() + 1 ==> #[trigger] insert_edge(edges, def)[k] == def
                || edges.contains(insert_edge(edges, def)[k]),
    decreases edges.len(),
{
    if edges.len() > 0 {
        if text::lex_lt(def.edge_type, edges[0].edge_type) {
            let r = seq![def] + edges;
            assert forall|i: int, j: int| 0 <= i < j < r.len() implies text::lex_lt(
                (#[trigger] r[i]).edge_type,
                (#[trigger] r[j]).edge_type,
            ) by {
                if i == 0 && j > 1 {
                    text::lemma_lex_transitive(
                        def.edge_type,
                        edges[0].edge_type,
                        edges[j - 1].edge_type,
                    );
                }
            }
            assert forall|k: int| 0 <= k < r.len() implies #[trigger] r[k] == def
                || edges.contains(r[k]) by {
                if k > 0 {
                    assert(r[k] == edges[k - 1]);
                }
            }
        } else {
            let tail = edges.drop_first();
            let rest = insert_edge(tail, def);
            lemma_insert_edge(tail, def);
            text::lemma_lex_total(def.edge_type, edges[0].edge_type);
            let r = seq![edges[0]] + rest;
            assert forall|i: int, j: int| 0 <= i < j < r.len() implies text::lex_lt(
                (#[trigger] r[i]).edge_type,
                (#[trigger] r[j]).edge_type,
            ) by {
                if i == 0 {
                    assert(r[j] == rest[j - 1]);
                    if rest[j - 1] != def {
                        let m = choose|m: int| 0 <= m < tail.len() && tail[m] == rest[j - 1];
                        assert(tail[m] == edges[m + 1]);
                    }
                } else {
                    assert(r[i] == rest[i - 1] && r[j] == rest[j - 1]);
                }
            }
            assert forall|k: int| 0 <= k < r.len() implies #[trigger] r[k] == def
                || edges.contains(r[k]) by {
                if k > 0 && rest[k - 1] != def {
                    let m = choose|m: int| 0 <= m < tail.len() && tail[m] == rest[k - 1];
                    assert(tail[m] == edges[m + 1]);
                }
            }
        }
    }
}

proof fn lemma_declare_sorted(
    decls: Seq<DeclView>,
    nodes: Seq<NodeDefView>,
    edges: Seq<EdgeDefView>,
)
    requires
        schema::sorted_nodes(nodes),
        schema::sorted_edges(edges),
    ensures
        declare(decls, nodes, edges) matches Ok(r) ==> schema::sorted_nodes(r.0)
            && schema::sorted_edges(r.1),
    decreases decls.len(),
{
    if decls.len() > 0 {
        match decls[0] {
            DeclView::Node(def) => {
                if schema::find_node(nodes, def.label) is None {
                    lemma_insert_node(nodes, def);
                    lemma_declare_sorted(decls.drop_first(), insert_node(nodes, def), edges);
                }
            },
            DeclView::Edge(def) => {
                if schema::find_edge(edges, def.edge_type) is None {
                    lemma_insert_edge(edges, def);
                    lemma_declare_sorted(decls.drop_first(), nodes, insert_edge(edges, def));
                }
            },
        }
    }
}

proof fn lemma_endpoints_known(nodes: Seq<NodeDefView>, edges: Seq<EdgeDefView>, i: int)
    requires
        endpoint_error(nodes, edges) is None,
        0 <= i < edges.len(),
    ensures
        schema::find_node(nodes, edges[i].from) is Some,
        schema::find_node(nodes, edges[i].to) is Some,
    decreases edges.len(),
{
    if i > 0 {
        lemma_endpoints_known(nodes, edges.drop_first(), i - 1);
        assert(edges.drop_first()[i - 1] == edges[i]);
    }
}

/// Every schema that a text can mean keeps the invariant of schemas: its
/// declarations are ordered and unique and its edges join declared labels.
pub proof fn law_schemas_are_well_formed(source: Seq<char>)
    ensures
        schema_of(source) matches Ok(s) ==> s.wf(),
{
    if let Ok(s) = schema_of(source) {
        let (_version, decls) = declarations_of(source).unwrap();
        lemma_declare_sorted(decls, seq![], seq![]);
        assert forall|i: int| 0 <= i < s.edges.len() implies schema::find_node(
            s.nodes,
            (#[trigger] s.edges[i]).from,
        ) is Some && schema::find_node(s.nodes, s.edges[i].to) is Some by {
            lemma_endpoints_known(s.nodes, s.edges, i);
        }
    }
}

proof fn lemma_insert_node_at(nodes: Seq<NodeDefView>, def: NodeDefView, i: int)
    requires
        0 <= i <= nodes.len(),
        forall|k: int| 0 <= k < i ==> !text::lex_lt(def.label, (#[trigger] nodes[k]).label),
        i < nodes.len() ==> text::lex_lt(def.label, nodes[i].label),
    ensures
        insert_node(nodes, def) == nodes.insert(i, def),
    decreases nodes.len(),
{
    if nodes.len() == 0 || i == 0 {
        assert(insert_node(nodes, def) =~= nodes.insert(i, def));
    } else {
        assert(nodes[0] == nodes[0]);
        lemma_insert_node_at(nodes.drop_first(), def, i - 1);
        assert(seq![nodes[0]] + nodes.drop_first().insert(i - 1, def) =~= nodes.insert(i, def));
    }
}

proof fn lemma_insert_edge_at(edges: Seq<EdgeDefView>, def: EdgeDefView, i: int)
    requires
        0 <= i <= edges.len(),
        forall|k: int| 0 <= k < i ==> !text::lex_lt(def.edge_type, (#[trigger] edges[k]).edge_type),
        i < edges.len() ==> text::lex_lt(def.edge_type, edges[i].edge_type),
    ensures
        insert_edge(edges, def) == edges.insert(i, def),
    decreases edges.len(),
{
    if edges.len() == 0 || i == 0 {
        assert(insert_edge(edges, def) =~= edges.insert(i, def));
    } else {
        assert(edges[0] == edges[0]);
        lemma_insert_edge_at(edges.drop_first(), def, i - 1);
        assert(seq![edges[0]] + edges.drop_first().insert(i - 1, def) =~= edges.insert(i, def));
    }
}

fn insert_node_def(nodes: &mut Vec<NodeDef>, def: NodeDef)
    ensures
        text::views(final(nodes)@) == insert_node(text::views(old(nodes)@), def@),
{
    let mut i: usize = 0;
    while i < nodes.len() && !text::str_less(def.label.0.as_str(), nodes[i].label.0.as_str())
        invariant
            i <= nodes.len(),
            forall|k: int|
                0 <= k < i ==> !text::lex_lt(
                    def@.label,
                    (#[trigger] text::views(nodes@)[k]).label,
                ),
        decreases nodes.len() - i,
    {
        i = i + 1;
    }
    proof {
        lemma_insert_node_at(text::views(nodes@), def@, i as int);
        assert(text::views(nodes@.insert(i as int, def)) =~= text::views(nodes@).insert(
            i as int,
            def@,
        ));
    }
    nodes.insert(i, def);
}

fn insert_edge_def(edges: &mut Vec<EdgeDef>, def: EdgeDef)
    ensures
        text::views(final(edges)@) == insert_edge(text::views(old(edges)@), def@),
{
    let mut i: usize = 0;
    while i < edges.len() && !text::str_less(
        def.edge_type.0.as_str(),
        edges[i].edge_type.0.as_str(),
    )
        invariant
            i <= edges.len(),
            forall|k: int|
                0 <= k < i ==> !text::lex_lt(
                    def@.edge_type,
                    (#[trigger] text::views(edges@)[k]).edge_type,
                ),
        decreases edges.len() - i,
    {
        i = i + 1;
    }
    proof {
        lemma_insert_edge_at(text::views(edges@), def@, i as int);
        assert(text::views(edges@.insert(i as int, def)) =~= text::views(edges@).insert(
            i as int,
            def@,
        ));
    }
    edges.insert(i, def);
}

fn parse_simple_type(src: &Source, pos: usize) -> (r: Option<(ScalarType, usize)>)
    requires
        src.wf(),
        pos <= src@.chars.len(),
    ensures
        text::parsed_plain(r, simple_type_at(src@, pos as int), pos, src@),
{
    proof {
        reveal_strlit("Int64");
        reveal_strlit("Float64");
        reveal_strlit("Bool");
        reveal_strlit("String");
        reveal_strlit("Timestamp");
        reveal_strlit("Bytes");
    }
    if let Some(p) = text::word_at_exec(src, pos, "Int64") {
        return Some((ScalarType::Int64, p));
    }
    if let Some(p) = text::word_at_exec(src, pos, "Float64") {
        return Some((ScalarType::Float64, p));
    }
    if let Some(p) = text::word_at_exec(src, pos, "Bool") {
        return Some((ScalarType::Bool, p));
    }
    if let Some(p) = text::word_at_exec(src, pos, "String") {
        return Some((ScalarType::String, p));
    }
    if let Some(p) = text::word_at_exec(src, pos, "Timestamp") {
        return Some((ScalarType::Timestamp, p));
    }
    match text::word_at_exec(src, pos, "Bytes") {
        Some(p) => Some((ScalarType::Bytes, p)),
        None => None,
    }
}

fn parse_vector_type(src: &Source, pos: usize) -> (r: Option<(ScalarType, usize)>)
    requires
        src.wf(),
        pos <= src@.chars.len(),
    ensures
        text::parsed_plain(r, vector_type_at(src@, pos as int), pos, src@),
{
    let p = match text::word_at_exec(src, pos, "Vector") {
        Some(p) => p,
        None => return None,
    };
    let q = match text::word_at_exec(src, p, "<") {
        Some(q) => q,
        None => return None,
    };
    let r = match text::word_at_exec(src, q, "Float32") {
        Some(r) => r,
        None => return None,
    };
    let t = match text::word_at_exec(src, r, ",") {
        Some(t) => t,
        None => return None,
    };
    let (dim, u) = match text::number_at_exec(src, t, u32::MAX as u64) {
        Some(x) => x,
        None => return None,
    };
    match text::word_at_exec(src, u, ">") {
        Some(e) => Some((ScalarType::Vector { dim: dim as u32 }, e)),
        None => None,
    }
}

fn parse_list_type(src: &Source, pos: usize) -> (r: Option<(ScalarType, usize)>)
    requires
        src.wf(),
        pos <= src@.chars.len(),
    ensures
        text::parsed_plain(r, list_type_at(src@, pos as int), pos, src@),
    decreases src@.chars.len() - pos, 0int,
{
    proof {
        reveal_strlit("List");
    }
    let h = match text::word_at_exec(src, pos, "List") {
        Some(h) => h,
        None => return None,
    };
    let p = match text::word_at_exec(src, h, "<") {
        Some(p) => p,
        None => return None,
    };
    let (element, q) = match parse_scalar_type(src, p) {
        Some(x) => x,
        None => return None,
    };
    match text::word_at_exec(src, q, ">") {
        Some(e) => Some((ScalarType::List(Box::new(element)), e)),
        None => None,
    }
}

fn parse_scalar_type(src: &Source, pos: usize) -> (r: Option<(ScalarType, usize)>)
    requires
        src.wf(),
        pos <= src@.chars.len(),
    ensures
        text::parsed_plain(r, scalar_type_at(src@, pos as int), pos, src@),
    decreases src@.chars.len() - pos, 1int,
{
    if let Some(r) = parse_list_type(src, pos) {
        return Some(r);
    }
    if let Some(r) = parse_vector_type(src, pos) {
        return Some(r);
    }
    parse_simple_type(src, pos)
}

fn parse_marker(src: &Source, pos: usize, word: &str) -> (r: (bool, usize))
    requires
        src.wf(),
        pos <= src@.chars.len(),
    ensures
        (r.0, r.1 as int) == marker_at(src@, pos as int, word@),
        pos <= r.1 <= src@.chars.len(),
{
    match text::word_at_exec(src, pos, word) {
        Some(p) => (true, p),
        None => (false, pos),
    }
}

fn parse_property_decl(src: &Source, pos: usize) -> (r: Option<(PropertyDef, usize)>)
    requires
        src.wf(),
        pos <= src@.chars.len(),
    ensures
        text::parsed(r, property_decl_at(src@, pos as int), pos, src@),
{
    let (indexed, p) = parse_marker(src, pos, "@indexed");
    let (name, q) = match text::ident_at_exec(src, p) {
        Some(x) => x,
        None => return None,
    };
    let r = match text::word_at_exec(src, q, ":") {
        Some(r) => r,
        None => return None,
    };
    let (ty, t) = match parse_scalar_type(src, r) {
        Some(x) => x,
        None => return None,
    };
    let (optional, e) = parse_marker(src, t, "?");
    Some((PropertyDef { name, ty, optional, indexed }, e))
}

fn parse_properties(src: &Source, pos: usize) -> (r: (Vec<PropertyDef>, usize))
    requires
        src.wf(),
        pos <= src@.chars.len(),
    ensures
        (text::views(r.0@), r.1 as int) == properties_at(src@, pos as int),
        pos <= r.1 <= src@.chars.len(),
{
    let mut properties: Vec<PropertyDef> = Vec::new();
    let mut cur: usize = pos;
    assert(text::views(properties@) + properties_at(src@, cur as int).0 =~= properties_at(
        src@,
        pos as int,
    ).0);
    loop
        invariant
            src.wf(),
            pos <= cur <= src@.chars.len(),
            properties_at(src@, pos as int).0 == text::views(properties@) + properties_at(
                src@,
                cur as int,
            ).0,
            properties_at(src@, pos as int).1 == properties_at(src@, cur as int).1,
        decreases src@.chars.len() - cur,
    {
        match parse_property_decl(src, cur) {
            Some((property, e)) => {
                proof {
                    text::lemma_views_push(properties@, property);
                    let rest = properties_at(src@, e as int).0;
                    assert(text::views(properties@) + (seq![property@] + rest) =~= text::views(
                        properties@.push(property),
                    ) + rest);
                }
                properties.push(property);
                cur = e;
            },
            None => {
                assert(text::views(properties@) + Seq::<PropertyDefView>::empty()
                    =~= text::views(properties@));
                return (properties, cur);
            },
        }
    }
}

/// `field : Label`.
fn field_label(src: &Source, pos: usize, field: &str) -> (r: Option<(String, usize)>)
    requires
        src.wf(),
        pos <= src@.chars.len(),
    ensures
        text::parsed(r, label_field_at(src@, pos as int, field@), pos, src@),
{
    let p = match text::word_at_exec(src, pos, field) {
        Some(p) => p,
        None => return None,
    };
    match text::word_at_exec(src, p, ":") {
        Some(q) => text::ident_at_exec(src, q),
        None => None,
    }
}

fn parse_decl_head(src: &Source, pos: usize, keyword: &str) -> (r: Option<(String, usize)>)
    requires
        src.wf(),
        pos <= src@.chars.len(),
    ensures
        text::parsed(r, decl_head_at(src@, pos as int, keyword@), pos, src@),
{
    let p = match text::word_at_exec(src, pos, keyword) {
        Some(p) => p,
        None => return None,
    };
    let (name, q) = match text::ident_at_exec(src, p) {
        Some(x) => x,
        None => return None,
    };
    match text::word_at_exec(src, q, "{") {
        Some(e) => Some((name, e)),
        None => None,
    }
}

fn parse_id_field(src: &Source, pos: usize) -> (r: Option<usize>)
    requires
        src.wf(),
        pos <= src@.chars.len(),
    ensures
        match r {
            Some(p) => id_field_at(src@, pos as int) == Some(p as int) && pos <= p
                <= src@.chars.len(),
            None => id_field_at(src@, pos as int) is None,
        },
{
    let p = match text::word_at_exec(src, pos, "id") {
        Some(p) => p,
        None => return None,
    };
    match text::word_at_exec(src, p, ":") {
        Some(q) => text::word_at_exec(src, q, "NodeId"),
        None => None,
    }
}

fn parse_node_decl(src: &Source, pos: usize) -> (r: Option<(NodeDef, usize)>)
    requires
        src.wf(),
        pos <= src@.chars.len(),
    ensures
        text::parsed(r, node_decl_at(src@, pos as int), pos, src@),
{
    let (label, p) = match parse_decl_head(src, pos, "node") {
        Some(x) => x,
        None => return None,
    };
    let q = match parse_id_field(src, p) {
        Some(q) => q,
        None => return None,
    };
    let (properties, r) = parse_properties(src, q);
    match text::word_at_exec(src, r, "}") {
        Some(e) => Some((NodeDef { label: Label(label), properties }, e)),
        None => None,
    }
}

fn parse_edge_decl(src: &Source, pos: usize) -> (r: Option<(EdgeDef, usize)>)
    requires
        src.wf(),
        pos <= src@.chars.len(),
    ensures
        text::parsed(r, edge_decl_at(src@, pos as int), pos, src@),
{
    let (edge_type, p) = match parse_decl_head(src, pos, "edge") {
        Some(x) => x,
        None => return None,
    };
    let (from, q) = match field_label(src, p, "from") {
        Some(x) => x,
        None => return None,
    };
    let (to, r) = match field_label(src, q, "to") {
        Some(x) => x,
        None => return None,
    };
    let (properties, t) = parse_properties(src, r);
    match text::word_at_exec(src, t, "}") {
        Some(e) => Some(
            (
                EdgeDef {
                    edge_type: EdgeType(edge_type),
                    from: Label(from),
                    to: Label(to),
                    properties,
                },
                e,
            ),
        ),
        None => None,
    }
}

enum Decl {
    Node(NodeDef),
    Edge(EdgeDef),
}

impl View for Decl {
    type V = DeclView;

    closed spec fn view(&self) -> DeclView {
        match self {
            Decl::Node(n) => DeclView::Node(n@),
            Decl::Edge(e) => DeclView::Edge(e@),
        }
    }
}

fn parse_declarations(source: &str) -> (r: Option<(String, Vec<Decl>)>)
    ensures
        match r {
            Some((version, decls)) => declarations_of(source@) == Some(
                (version@, text::views(decls@)),
            ),
            None => declarations_of(source@) is None,
        },
{
    let src = Source::new(source, true);
    let (version, p) = match parse_decl_head(&src, 0, "schema") {
        Some(x) => x,
        None => return None,
    };
    let mut decls: Vec<Decl> = Vec::new();
    let mut cur: usize = p;
    assert(text::views(decls@) + decls_at(src@, cur as int).0 =~= decls_at(src@, p as int).0);
    loop
        invariant
            src.wf(),
            p <= cur <= src@.chars.len(),
            decls_at(src@, p as int).0 == text::views(decls@) + decls_at(src@, cur as int).0,
            decls_at(src@, p as int).1 == decls_at(src@, cur as int).1,
        ensures
            cur <= src@.chars.len(),
            decls_at(src@, p as int) == (text::views(decls@), cur as int),
        decreases src@.chars.len() - cur,
    {
        let next = match parse_node_decl(&src, cur) {
            Some((node, e)) => Some((Decl::Node(node), e)),
            None => match parse_edge_decl(&src, cur) {
                Some((edge, e)) => Some((Decl::Edge(edge), e)),
                None => None,
            },
        };
        match next {
            Some((decl, e)) => {
                proof {
                    text::lemma_views_push(decls@, decl);
                    let rest = decls_at(src@, e as int).0;
                    assert(text::views(decls@) + (seq![decl@] + rest) =~= text::views(
                        decls@.push(decl),
                    ) + rest);
                }
                decls.push(decl);
                cur = e;
            },
            None => {
                assert(text::views(decls@) + Seq::<DeclView>::empty() =~= text::views(decls@));
                break;
            },
        }
    }
    match text::word_at_exec(&src, cur, "}") {
        Some(e) => {
            if text::skip_blank_exec(&src, e) == src.chars.len() {
                Some((version, decls))
            } else {
                None
            }
        },
        None => None,
    }
}

/// Whether a label is declared.
fn has_node(nodes: &Vec<NodeDef>, label: &Label) -> (r: bool)
    ensures
        r == (schema::find_node(text::views(nodes@), label@) is Some),
{
    let ghost all = text::views(nodes@);
    let mut i: usize = 0;
    assert(all.skip(0) =~= all);
    while i < nodes.len()
        invariant
            i <= nodes.len(),
            all == text::views(nodes@),
            schema::find_node(all, label@) == schema::find_node(all.skip(i as int), label@),
        decreases nodes.len() - i,
    {
        assert(all.skip(i as int)[0] == nodes[i as int]@);
        assert(all.skip(i as int).drop_first() =~= all.skip(i + 1));
        if nodes[i].label.0 == label.0 {
            return true;
        }
        i = i + 1;
    }
    false
}

/// Whether an edge type is declared.
fn has_edge(edges: &Vec<EdgeDef>, edge_type: &EdgeType) -> (r: bool)
    ensures
        r == (schema::find_edge(text::views(edges@), edge_type@) is Some),
{
    let ghost all = text::views(edges@);
    let mut i: usize = 0;
    assert(all.skip(0) =~= all);
    while i < edges.len()
        invariant
            i <= edges.len(),
            all == text::views(edges@),
            schema::find_edge(all, edge_type@) == schema::find_edge(
                all.skip(i as int),
                edge_type@,
            ),
        decreases edges.len() - i,
    {
        assert(all.skip(i as int)[0] == edges[i as int]@);
        assert(all.skip(i as int).drop_first() =~= all.skip(i + 1));
        if edges[i].edge_type.0 == edge_type.0 {
            return true;
        }
        i = i + 1;
    }
    false
}

/// The first edge with an unknown end, as a message.
fn check_endpoints(nodes: &Vec<NodeDef>, edges: &Vec<EdgeDef>) -> (r: Option<String>)
    ensures
        text::option_view(r) == endpoint_error(text::views(nodes@), text::views(edges@)),
{
    let ghost known = text::views(nodes@);
    let ghost all = text::views(edges@);
    let mut i: usize = 0;
    assert(all.skip(0) =~= all);
    while i < edges.len()
        invariant
            i <= edges.len(),
            known == text::views(nodes@),
            all == text::views(edges@),
            endpoint_error(known, all) == endpoint_error(known, all.skip(i as int)),
        decreases edges.len() - i,
    {
        assert(all.skip(i as int)[0] == edges[i as int]@);
        assert(all.skip(i as int).drop_first() =~= all.skip(i + 1));
        if !has_node(nodes, &edges[i].from) {
            let mut message: String = "edge ".to_owned();
            message.append(edges[i].edge_type.0.as_str());
            message.append(" references unknown source label ");
            message.append(edges[i].from.0.as_str());
            return Some(message);
        }
        if !has_node(nodes, &edges[i].to) {
            let mut message: String = "edge ".to_owned();
            message.append(edges[i].edge_type.0.as_str());
            message.append(" references unknown target label ");
            message.append(edges[i].to.0.as_str());
            return Some(message);
        }
        i = i + 1;
    }
    None
}

/// Reads schema texts.
pub trait SchemaParser {
    fn parse(&self, idl_source: &str) -> Result<Schema, SchemaError>;
}

/// The parser of the schema language.
pub struct PestSchemaParser;

impl SchemaParser for PestSchemaParser {
    /// Reads a schema, or says why the text is none.
    fn parse(&self, idl_source: &str) -> (r: Result<Schema, SchemaError>)
        ensures
            match r {
                Ok(s) => schema_of(idl_source@) == Ok::<SchemaView, Seq<char>>(s@) && s@.wf(),
                Err(e) => schema_of(idl_source@) == Err::<SchemaView, Seq<char>>(e@),
            },
    {
        let (version, mut decls) = match parse_declarations(idl_source) {
            Some(x) => x,
            None => return Err(SchemaError::Parse("invalid schema syntax".to_owned())),
        };
        let ghost all = text::views(decls@);
        let mut nodes: Vec<NodeDef> = Vec::new();
        let mut edges: Vec<EdgeDef> = Vec::new();
        assert(text::views(nodes@) =~= Seq::<NodeDefView>::empty());
        assert(text::views(edges@) =~= Seq::<EdgeDefView>::empty());
        while decls.len() > 0
            invariant
                declare(all, seq![], seq![]) == declare(
                    text::views(decls@),
                    text::views(nodes@),
                    text::views(edges@),
                ),
                declarations_of(idl_source@) == Some((version@, all)),
            decreases decls.len(),
        {
            let ghost before = decls@;
            let decl = decls.remove(0);
            assert(text::views(before)[0] == decl@);
            assert(text::views(before).drop_first() =~= text::views(decls@));
            match decl {
                Decl::Node(def) => {
                    if has_node(&nodes, &def.label) {
                        let mut message: String = "duplicate node label: ".to_owned();
                        message.append(def.label.0.as_str());
                        return Err(SchemaError::Parse(message));
                    }
                    insert_node_def(&mut nodes, def);
                },
                Decl::Edge(def) => {
                    if has_edge(&edges, &def.edge_type) {
                        let mut message: String = "duplicate edge type: ".to_owned();
                        message.append(def.edge_type.0.as_str());
                        return Err(SchemaError::Parse(message));
                    }
                    insert_edge_def(&mut edges, def);
                },
            }
        }
        match check_endpoints(&nodes, &edges) {
            Some(message) => Err(SchemaError::Parse(message)),
            None => {
                proof {
                    law_schemas_are_well_formed(idl_source@);
                }
                Ok(Schema { version, nodes, edges })
            },
        }
    }
}

} // verus!
