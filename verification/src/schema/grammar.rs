//! What the text of a schema looks like, said part by part, and that nothing
//! else is read: where a text reads as declarations, those are what the text
//! writes.
use crate::layout;
use crate::layout::{gap, mark, name, number};
use crate::schema::parser;
use crate::schema::parser::DeclView;
use crate::schema::{EdgeDefView, NodeDefView, PropertyDefView, ScalarType, SchemaView};
use crate::text;
use crate::text::SourceView;
use vstd::prelude::*;

verus! {

/// That a position is one of the text.
pub open spec fn within(src: SourceView, i: int) -> bool {
    0 <= i <= src.chars.len()
}

/// The name of a type, `List<type>` or `Vector<Float32, dim>`.
pub open spec fn type_text(src: SourceView, i: int, j: int, ty: ScalarType) -> bool
    decreases ty,
{
    match ty {
        ScalarType::Int64 => mark(src, i, j, "Int64"@),
        ScalarType::Float64 => mark(src, i, j, "Float64"@),
        ScalarType::Bool => mark(src, i, j, "Bool"@),
        ScalarType::String => mark(src, i, j, "String"@),
        ScalarType::Timestamp => mark(src, i, j, "Timestamp"@),
        ScalarType::Bytes => mark(src, i, j, "Bytes"@),
        ScalarType::List(element) => exists|a: int, b: int, c: int| #[trigger]
            mark(src, i, a, "List"@) && #[trigger] mark(src, a, b, "<"@) && type_text(
                src,
                b,
                c,
                *element,
            ) && #[trigger] mark(src, c, j, ">"@),
        ScalarType::Vector { dim } => exists|a: int, b: int, c: int, d: int, e: int| #[trigger]
            mark(src, i, a, "Vector"@) && #[trigger] mark(src, a, b, "<"@) && #[trigger] mark(
                src,
                b,
                c,
                "Float32"@,
            ) && #[trigger] mark(src, c, d, ","@) && #[trigger] number(src, d, e, dim as int)
                && mark(src, e, j, ">"@),
    }
}

/// A mark that stands there or not.
pub open spec fn marker(src: SourceView, i: int, j: int, there: bool, word: Seq<char>) -> bool {
    if there {
        mark(src, i, j, word)
    } else {
        i == j
    }
}

/// `@indexed name: type?`, with the marks that apply.
pub open spec fn property(src: SourceView, i: int, j: int, p: PropertyDefView) -> bool {
    exists|a: int, b: int, c: int, d: int| #[trigger]
        marker(src, i, a, p.indexed, "@indexed"@) && #[trigger] name(src, a, b, p.name)
            && #[trigger] mark(src, b, c, ":"@) && type_text(src, c, d, p.ty) && #[trigger] marker(
            src,
            d,
            j,
            p.optional,
            "?"@,
        )
}

/// One property behind the other.
pub open spec fn properties(src: SourceView, i: int, j: int, ps: Seq<PropertyDefView>) -> bool
    decreases ps.len(),
{
    if ps.len() == 0 {
        i == j
    } else {
        exists|a: int| #[trigger]
            property(src, i, a, ps[0]) && properties(src, a, j, ps.drop_first())
    }
}

/// `field: Label`.
pub open spec fn field(
    src: SourceView,
    i: int,
    j: int,
    word: Seq<char>,
    label: Seq<char>,
) -> bool {
    exists|a: int, b: int| #[trigger]
        mark(src, i, a, word) && #[trigger] mark(src, a, b, ":"@) && name(src, b, j, label)
}

/// `keyword name {`.
pub open spec fn opening(
    src: SourceView,
    i: int,
    j: int,
    keyword: Seq<char>,
    n: Seq<char>,
) -> bool {
    exists|a: int, b: int| #[trigger]
        mark(src, i, a, keyword) && #[trigger] name(src, a, b, n) && mark(src, b, j, "{"@)
}

/// `id: NodeId`.
pub open spec fn id_field(src: SourceView, i: int, j: int) -> bool {
    exists|a: int, b: int| #[trigger]
        mark(src, i, a, "id"@) && #[trigger] mark(src, a, b, ":"@) && mark(src, b, j, "NodeId"@)
}

/// `node Label { id: NodeId .. }`.
pub open spec fn node(src: SourceView, i: int, j: int, n: NodeDefView) -> bool {
    exists|a: int, b: int, c: int| #[trigger]
        opening(src, i, a, "node"@, n.label) && #[trigger] id_field(src, a, b) && properties(
            src,
            b,
            c,
            n.properties,
        ) && #[trigger] mark(src, c, j, "}"@)
}

/// `edge TYPE { from: Label to: Label .. }`.
pub open spec fn edge(src: SourceView, i: int, j: int, e: EdgeDefView) -> bool {
    exists|a: int, b: int, c: int, d: int| #[trigger]
        opening(src, i, a, "edge"@, e.edge_type) && #[trigger] field(src, a, b, "from"@, e.from)
            && #[trigger] field(src, b, c, "to"@, e.to) && properties(src, c, d, e.properties)
            && #[trigger] mark(src, d, j, "}"@)
}

pub open spec fn declaration(src: SourceView, i: int, j: int, d: DeclView) -> bool {
    match d {
        DeclView::Node(n) => node(src, i, j, n),
        DeclView::Edge(e) => edge(src, i, j, e),
    }
}

/// One declaration behind the other.
pub open spec fn declarations(src: SourceView, i: int, j: int, ds: Seq<DeclView>) -> bool
    decreases ds.len(),
{
    if ds.len() == 0 {
        i == j
    } else {
        exists|a: int| #[trigger]
            declaration(src, i, a, ds[0]) && declarations(src, a, j, ds.drop_first())
    }
}

/// That a text writes declarations, with nothing else in it but comments.
pub open spec fn is_text_of(source: Seq<char>, version: Seq<char>, ds: Seq<DeclView>) -> bool {
    let src = SourceView { chars: source, comments: true };
    exists|a: int, b: int, c: int| #[trigger]
        opening(src, 0, a, "schema"@, version) && #[trigger] declarations(src, a, b, ds)
            && #[trigger] mark(src, b, c, "}"@) && gap(src, c, source.len() as int)
}

proof fn lemma_simple_type(src: SourceView, pos: int)
    requires
        within(src, pos),
    ensures
        parser::simple_type_at(src, pos) matches Some((ty, j)) ==> type_text(src, pos, j, ty) && pos
            < j <= src.chars.len(),
{
    reveal_strlit("Int64");
    reveal_strlit("Float64");
    reveal_strlit("Bool");
    reveal_strlit("String");
    reveal_strlit("Timestamp");
    reveal_strlit("Bytes");
    layout::lemma_read_word(src, pos, "Int64"@);
    layout::lemma_read_word(src, pos, "Float64"@);
    layout::lemma_read_word(src, pos, "Bool"@);
    layout::lemma_read_word(src, pos, "String"@);
    layout::lemma_read_word(src, pos, "Timestamp"@);
    layout::lemma_read_word(src, pos, "Bytes"@);
}

proof fn lemma_vector_type(src: SourceView, pos: int)
    requires
        within(src, pos),
    ensures
        parser::vector_type_at(src, pos) matches Some((ty, j)) ==> type_text(src, pos, j, ty) && pos
            < j <= src.chars.len(),
{
    reveal_strlit("Vector");
    reveal_strlit("<");
    reveal_strlit("Float32");
    reveal_strlit(",");
    reveal_strlit(">");
    layout::lemma_read_word(src, pos, "Vector"@);
    if let Some(a) = text::word_at(src, pos, "Vector"@) {
        layout::lemma_read_word(src, a, "<"@);
        if let Some(b) = text::word_at(src, a, "<"@) {
            layout::lemma_read_word(src, b, "Float32"@);
            if let Some(c) = text::word_at(src, b, "Float32"@) {
                layout::lemma_read_word(src, c, ","@);
                if let Some(d) = text::word_at(src, c, ","@) {
                    layout::lemma_read_number(src, d, u32::MAX as int);
                    if let Some((dim, e)) = text::number_at(src, d, u32::MAX as int) {
                        layout::lemma_read_word(src, e, ">"@);
                        if let Some(j) = text::word_at(src, e, ">"@) {
                            let ty = ScalarType::Vector { dim: dim as u32 };
                            assert(ty->Vector_dim as int == dim);
                            assert(mark(src, pos, a, "Vector"@) && mark(src, a, b, "<"@) && mark(
                                src,
                                b,
                                c,
                                "Float32"@,
                            ) && mark(src, c, d, ","@) && number(src, d, e, ty->Vector_dim as int)
                                && mark(src, e, j, ">"@));
                            assert(type_text(src, pos, j, ty));
                        }
                    }
                }
            }
        }
    }
}

proof fn lemma_list_type(src: SourceView, pos: int)
    requires
        within(src, pos),
    ensures
        parser::list_type_at(src, pos) matches Some((ty, j)) ==> type_text(src, pos, j, ty) && pos
            < j <= src.chars.len(),
    decreases src.chars.len() - pos, 0int,
{
    reveal_strlit("List");
    reveal_strlit("<");
    reveal_strlit(">");
    layout::lemma_read_word(src, pos, "List"@);
    if let Some(a) = text::word_at(src, pos, "List"@) {
        layout::lemma_read_word(src, a, "<"@);
        if let Some(b) = text::word_at(src, a, "<"@) {
            lemma_type(src, b);
            if let Some((element, c)) = parser::scalar_type_at(src, b) {
                layout::lemma_read_word(src, c, ">"@);
                if let Some(j) = text::word_at(src, c, ">"@) {
                    let ty = ScalarType::List(Box::new(element));
                    assert(mark(src, pos, a, "List"@) && mark(src, a, b, "<"@) && type_text(
                        src,
                        b,
                        c,
                        *ty->List_0,
                    ) && mark(src, c, j, ">"@));
                    assert(type_text(src, pos, j, ty));
                    assert(parser::list_type_at(src, pos) == Some((ty, j)));
                }
            }
        }
    }
}

proof fn lemma_type(src: SourceView, pos: int)
    requires
        within(src, pos),
    ensures
        parser::scalar_type_at(src, pos) matches Some((ty, j)) ==> type_text(src, pos, j, ty) && pos
            < j <= src.chars.len(),
    decreases src.chars.len() - pos, 1int,
{
    lemma_list_type(src, pos);
    lemma_vector_type(src, pos);
    lemma_simple_type(src, pos);
}

proof fn lemma_marker(src: SourceView, pos: int, word: Seq<char>)
    requires
        within(src, pos),
        word.len() > 0,
    ensures
        ({
            let (there, j) = parser::marker_at(src, pos, word);
            marker(src, pos, j, there, word) && pos <= j <= src.chars.len()
        }),
{
    layout::lemma_read_word(src, pos, word);
}

proof fn lemma_property(src: SourceView, pos: int)
    requires
        within(src, pos),
    ensures
        parser::property_decl_at(src, pos) matches Some((p, j)) ==> property(src, pos, j, p) && pos
            < j <= src.chars.len(),
{
    reveal_strlit("@indexed");
    reveal_strlit(":");
    reveal_strlit("?");
    lemma_marker(src, pos, "@indexed"@);
    let (indexed, a) = parser::marker_at(src, pos, "@indexed"@);
    layout::lemma_read_name(src, a);
    if let Some((n, b)) = text::ident_at(src, a) {
        layout::lemma_read_word(src, b, ":"@);
        if let Some(c) = text::word_at(src, b, ":"@) {
            lemma_type(src, c);
            if let Some((ty, d)) = parser::scalar_type_at(src, c) {
                lemma_marker(src, d, "?"@);
                if let Some((p, j)) = parser::property_decl_at(src, pos) {
                    assert(marker(src, pos, a, p.indexed, "@indexed"@) && name(src, a, b, p.name)
                        && mark(src, b, c, ":"@) && type_text(src, c, d, p.ty) && marker(
                        src,
                        d,
                        j,
                        p.optional,
                        "?"@,
                    ));
                }
            }
        }
    }
}

proof fn lemma_properties(src: SourceView, pos: int)
    requires
        within(src, pos),
    ensures
        properties(src, pos, parser::properties_at(src, pos).1, parser::properties_at(src, pos).0),
        pos <= parser::properties_at(src, pos).1 <= src.chars.len(),
    decreases src.chars.len() - pos,
{
    lemma_property(src, pos);
    if let Some((p, q)) = parser::property_decl_at(src, pos) {
        lemma_properties(src, q);
        let (rest, j) = parser::properties_at(src, q);
        let all = seq![p] + rest;
        assert(all.drop_first() =~= rest);
        assert(property(src, pos, q, all[0]));
        assert(properties(src, pos, j, all));
    }
}

proof fn lemma_field(src: SourceView, pos: int, word: Seq<char>)
    requires
        within(src, pos),
        word.len() > 0,
    ensures
        parser::label_field_at(src, pos, word) matches Some((label, j)) ==> field(
            src,
            pos,
            j,
            word,
            label,
        ) && pos < j <= src.chars.len(),
{
    reveal_strlit(":");
    layout::lemma_read_word(src, pos, word);
    if let Some(a) = text::word_at(src, pos, word) {
        layout::lemma_read_word(src, a, ":"@);
        if let Some(b) = text::word_at(src, a, ":"@) {
            layout::lemma_read_name(src, b);
        }
    }
}

proof fn lemma_opening(src: SourceView, pos: int, keyword: Seq<char>)
    requires
        within(src, pos),
        keyword.len() > 0,
    ensures
        parser::decl_head_at(src, pos, keyword) matches Some((n, j)) ==> opening(
            src,
            pos,
            j,
            keyword,
            n,
        ) && pos < j <= src.chars.len(),
{
    reveal_strlit("{");
    layout::lemma_read_word(src, pos, keyword);
    if let Some(a) = text::word_at(src, pos, keyword) {
        layout::lemma_read_name(src, a);
        if let Some((n, b)) = text::ident_at(src, a) {
            layout::lemma_read_word(src, b, "{"@);
        }
    }
}

proof fn lemma_id_field(src: SourceView, pos: int)
    requires
        within(src, pos),
    ensures
        parser::id_field_at(src, pos) matches Some(j) ==> id_field(src, pos, j) && pos < j
            <= src.chars.len(),
{
    reveal_strlit("id");
    reveal_strlit(":");
    reveal_strlit("NodeId");
    layout::lemma_read_word(src, pos, "id"@);
    if let Some(a) = text::word_at(src, pos, "id"@) {
        layout::lemma_read_word(src, a, ":"@);
        if let Some(b) = text::word_at(src, a, ":"@) {
            layout::lemma_read_word(src, b, "NodeId"@);
        }
    }
}

proof fn lemma_node(src: SourceView, pos: int)
    requires
        within(src, pos),
    ensures
        parser::node_decl_at(src, pos) matches Some((n, j)) ==> node(src, pos, j, n) && pos < j
            <= src.chars.len(),
{
    reveal_strlit("node");
    reveal_strlit("}");
    lemma_opening(src, pos, "node"@);
    if let Some((label, a)) = parser::decl_head_at(src, pos, "node"@) {
        lemma_id_field(src, a);
        if let Some(b) = parser::id_field_at(src, a) {
            lemma_properties(src, b);
            let (ps, c) = parser::properties_at(src, b);
            layout::lemma_read_word(src, c, "}"@);
            if let Some((n, j)) = parser::node_decl_at(src, pos) {
                assert(opening(src, pos, a, "node"@, n.label) && id_field(src, a, b) && properties(
                    src,
                    b,
                    c,
                    n.properties,
                ) && mark(src, c, j, "}"@));
            }
        }
    }
}

proof fn lemma_edge(src: SourceView, pos: int)
    requires
        within(src, pos),
    ensures
        parser::edge_decl_at(src, pos) matches Some((e, j)) ==> edge(src, pos, j, e) && pos < j
            <= src.chars.len(),
{
    reveal_strlit("edge");
    reveal_strlit("from");
    reveal_strlit("to");
    reveal_strlit("}");
    lemma_opening(src, pos, "edge"@);
    if let Some((edge_type, a)) = parser::decl_head_at(src, pos, "edge"@) {
        lemma_field(src, a, "from"@);
        if let Some((from, b)) = parser::label_field_at(src, a, "from"@) {
            lemma_field(src, b, "to"@);
            if let Some((to, c)) = parser::label_field_at(src, b, "to"@) {
                lemma_properties(src, c);
                let (ps, d) = parser::properties_at(src, c);
                layout::lemma_read_word(src, d, "}"@);
                if let Some((e, j)) = parser::edge_decl_at(src, pos) {
                    assert(opening(src, pos, a, "edge"@, e.edge_type) && field(
                        src,
                        a,
                        b,
                        "from"@,
                        e.from,
                    ) && field(src, b, c, "to"@, e.to) && properties(src, c, d, e.properties)
                        && mark(src, d, j, "}"@));
                }
            }
        }
    }
}

proof fn lemma_declarations(src: SourceView, pos: int)
    requires
        within(src, pos),
    ensures
        declarations(src, pos, parser::decls_at(src, pos).1, parser::decls_at(src, pos).0),
        pos <= parser::decls_at(src, pos).1 <= src.chars.len(),
    decreases src.chars.len() - pos,
{
    lemma_node(src, pos);
    lemma_edge(src, pos);
    if let Some((d, q)) = parser::decl_at(src, pos) {
        lemma_declarations(src, q);
        let (rest, j) = parser::decls_at(src, q);
        let all = seq![d] + rest;
        assert(all.drop_first() =~= rest);
        assert(declaration(src, pos, q, all[0]));
        assert(declarations(src, pos, j, all));
    }
}

/// Where a text reads as declarations, those are what the text writes, and it
/// writes nothing else: each name, type and mark stands in the text, in its
/// place, with nothing but blank space and comments between.
pub proof fn law_what_is_declared_is_what_is_written(
    source: Seq<char>,
    version: Seq<char>,
    ds: Seq<DeclView>,
)
    requires
        parser::declarations_of(source) == Some((version, ds)),
    ensures
        is_text_of(source, version, ds),
{
    reveal_strlit("schema");
    reveal_strlit("}");
    let src = SourceView { chars: source, comments: true };
    lemma_opening(src, 0, "schema"@);
    let a = parser::decl_head_at(src, 0, "schema"@)->Some_0.1;
    lemma_declarations(src, a);
    let (ds, b) = parser::decls_at(src, a);
    layout::lemma_read_word(src, b, "}"@);
    let c = text::word_at(src, b, "}"@)->Some_0;
    layout::lemma_gap(src, c);
    assert(opening(src, 0, a, "schema"@, version) && declarations(src, a, b, ds) && mark(
        src,
        b,
        c,
        "}"@,
    ));
}

/// A text that does not read as declarations is no schema, and is refused as
/// such.
pub proof fn law_schemas_are_read_from_declarations(source: Seq<char>)
    ensures
        parser::schema_of(source) is Ok ==> exists|version: Seq<char>, ds: Seq<DeclView>| #[trigger]
            is_text_of(source, version, ds) && (parser::schema_of(source)->Ok_0).version == version,
        parser::declarations_of(source) is None ==> parser::schema_of(source) == Err::<
            SchemaView,
            Seq<char>,
        >("invalid schema syntax"@),
{
    if let Some((version, ds)) = parser::declarations_of(source) {
        law_what_is_declared_is_what_is_written(source, version, ds);
    }
}

} // verus!
