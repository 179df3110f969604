//! How schemas are written, and that what is written reads back.
//!
//! The tokens of a declaration are said here with no word of how they are read.
use crate::layout;
use crate::layout::{head, laid_out};
use crate::index::laws;
use crate::schema;
use crate::schema::parser;
use crate::schema::parser::DeclView;
use crate::schema::{EdgeDefView, NodeDefView, PropertyDefView, ScalarType, SchemaView};
use crate::text;
use crate::text::SourceView;
use vstd::prelude::*;

verus! {

/// That a way of writing numbers writes them.
pub open spec fn is_numbering(digits: spec_fn(int) -> Seq<char>) -> bool {
    forall|n: int| 0 <= n ==> layout::writes(#[trigger] digits(n), n)
}

/// The tokens that write a type.
pub open spec fn type_tokens(ty: ScalarType, digits: spec_fn(int) -> Seq<char>) -> Seq<Seq<char>>
    decreases ty,
{
    match ty {
        ScalarType::Int64 => seq!["Int64"@],
        ScalarType::Float64 => seq!["Float64"@],
        ScalarType::Bool => seq!["Bool"@],
        ScalarType::String => seq!["String"@],
        ScalarType::Timestamp => seq!["Timestamp"@],
        ScalarType::Bytes => seq!["Bytes"@],
        ScalarType::List(element) => seq!["List"@] + (seq!["<"@] + (type_tokens(*element, digits)
            + seq![">"@])),
        ScalarType::Vector { dim } => seq!["Vector"@] + (seq!["<"@] + (seq!["Float32"@] + (seq![
            ","@,
        ] + (seq![digits(dim as int)] + seq![">"@])))),
    }
}

/// `word`, or nothing.
pub open spec fn marker_tokens(there: bool, word: Seq<char>) -> Seq<Seq<char>> {
    if there {
        seq![word]
    } else {
        seq![]
    }
}

/// `@indexed name: type?`, with the marks that apply.
pub open spec fn property_tokens(p: PropertyDefView, digits: spec_fn(int) -> Seq<char>) -> Seq<
    Seq<char>,
> {
    marker_tokens(p.indexed, "@indexed"@) + (seq![p.name] + (seq![":"@] + (type_tokens(
        p.ty,
        digits,
    ) + marker_tokens(p.optional, "?"@))))
}

pub open spec fn properties_tokens(
    ps: Seq<PropertyDefView>,
    digits: spec_fn(int) -> Seq<char>,
) -> Seq<Seq<char>>
    decreases ps.len(),
{
    if ps.len() == 0 {
        seq![]
    } else {
        property_tokens(ps[0], digits) + properties_tokens(ps.drop_first(), digits)
    }
}

/// `node Label { id: NodeId .. }`.
pub open spec fn node_tokens(n: NodeDefView, digits: spec_fn(int) -> Seq<char>) -> Seq<Seq<char>> {
    seq!["node"@] + (seq![n.label] + (seq!["{"@] + (seq!["id"@] + (seq![":"@] + (seq!["NodeId"@] + (
    properties_tokens(n.properties, digits) + seq!["}"@]))))))
}

/// `edge TYPE { from: Label to: Label .. }`.
pub open spec fn edge_tokens(e: EdgeDefView, digits: spec_fn(int) -> Seq<char>) -> Seq<Seq<char>> {
    seq!["edge"@] + (seq![e.edge_type] + (seq!["{"@] + (seq!["from"@] + (seq![":"@] + (seq![e.from]
        + (seq!["to"@] + (seq![":"@] + (seq![e.to] + (properties_tokens(e.properties, digits)
        + seq!["}"@])))))))))
}

pub open spec fn decl_tokens(d: DeclView, digits: spec_fn(int) -> Seq<char>) -> Seq<Seq<char>> {
    match d {
        DeclView::Node(n) => node_tokens(n, digits),
        DeclView::Edge(e) => edge_tokens(e, digits),
    }
}

pub open spec fn decls_tokens(ds: Seq<DeclView>, digits: spec_fn(int) -> Seq<char>) -> Seq<
    Seq<char>,
>
    decreases ds.len(),
{
    if ds.len() == 0 {
        seq![]
    } else {
        decl_tokens(ds[0], digits) + decls_tokens(ds.drop_first(), digits)
    }
}

/// `schema version { .. }`.
pub open spec fn schema_tokens(
    version: Seq<char>,
    ds: Seq<DeclView>,
    digits: spec_fn(int) -> Seq<char>,
) -> Seq<Seq<char>> {
    seq!["schema"@] + (seq![version] + (seq!["{"@] + (decls_tokens(ds, digits) + seq!["}"@])))
}

pub open spec fn writable_properties(ps: Seq<PropertyDefView>) -> bool {
    forall|i: int| 0 <= i < ps.len() ==> layout::is_name((#[trigger] ps[i]).name)
}

pub open spec fn writable_decl(d: DeclView) -> bool {
    match d {
        DeclView::Node(n) => layout::is_name(n.label) && writable_properties(n.properties),
        DeclView::Edge(e) => layout::is_name(e.edge_type) && layout::is_name(e.from)
            && layout::is_name(e.to) && writable_properties(e.properties),
    }
}

proof fn lemma_words()
    ensures
        "Int64"@ == seq!['I', 'n', 't', '6', '4'],
        "Float64"@ == seq!['F', 'l', 'o', 'a', 't', '6', '4'],
        "Bool"@ == seq!['B', 'o', 'o', 'l'],
        "String"@ == seq!['S', 't', 'r', 'i', 'n', 'g'],
        "Timestamp"@ == seq!['T', 'i', 'm', 'e', 's', 't', 'a', 'm', 'p'],
        "Bytes"@ == seq!['B', 'y', 't', 'e', 's'],
        "List"@ == seq!['L', 'i', 's', 't'],
        "Vector"@ == seq!['V', 'e', 'c', 't', 'o', 'r'],
        "Float32"@ == seq!['F', 'l', 'o', 'a', 't', '3', '2'],
        "<"@ == seq!['<'],
        ">"@ == seq!['>'],
        ","@ == seq![','],
        ":"@ == seq![':'],
        "{"@ == seq!['{'],
        "}"@ == seq!['}'],
        "?"@ == seq!['?'],
        "@indexed"@ == seq!['@', 'i', 'n', 'd', 'e', 'x', 'e', 'd'],
{
    reveal_strlit("Int64");
    reveal_strlit("Float64");
    reveal_strlit("Bool");
    reveal_strlit("String");
    reveal_strlit("Timestamp");
    reveal_strlit("Bytes");
    reveal_strlit("List");
    reveal_strlit("Vector");
    reveal_strlit("Float32");
    reveal_strlit("<");
    reveal_strlit(">");
    reveal_strlit(",");
    reveal_strlit(":");
    reveal_strlit("{");
    reveal_strlit("}");
    reveal_strlit("?");
    reveal_strlit("@indexed");
}

proof fn lemma_keywords()
    ensures
        "node"@.len() > 0 && "node"@[0] == 'n',
        "edge"@.len() > 0 && "edge"@[0] == 'e',
        "id"@.len() > 0 && "id"@[0] == 'i',
        "NodeId"@.len() > 0 && "NodeId"@[0] == 'N',
        "from"@.len() > 0 && "from"@[0] == 'f',
        "to"@.len() > 0 && "to"@[0] == 't',
        "schema"@.len() > 0 && "schema"@[0] == 's',
        "{"@.len() > 0 && "{"@[0] == '{',
        "}"@.len() > 0 && "}"@[0] == '}',
        ":"@.len() > 0 && ":"@[0] == ':',
{
    reveal_strlit("node");
    reveal_strlit("edge");
    reveal_strlit("id");
    reveal_strlit("NodeId");
    reveal_strlit("from");
    reveal_strlit("to");
    reveal_strlit("schema");
    reveal_strlit("{");
    reveal_strlit("}");
    reveal_strlit(":");
}

proof fn lemma_simple_type(src: SourceView, pos: int, ty: ScalarType, t: Seq<char>, end: int)
    requires
        laid_out(src.chars, pos, seq![t], end),
        0 <= pos <= src.chars.len(),
        match ty {
            ScalarType::Int64 => t == "Int64"@,
            ScalarType::Float64 => t == "Float64"@,
            ScalarType::Bool => t == "Bool"@,
            ScalarType::String => t == "String"@,
            ScalarType::Timestamp => t == "Timestamp"@,
            ScalarType::Bytes => t == "Bytes"@,
            _ => false,
        },
    ensures
        parser::scalar_type_at(src, pos) == Some((ty, end)),
        pos < end <= src.chars.len(),
{
    lemma_words();
    let p = layout::lemma_token(src, pos, t, end);
    layout::lemma_word(src, pos, t, end);
    layout::lemma_no_word(src, pos, "List"@);
    layout::lemma_no_word(src, pos, "Vector"@);
    if t[0] != 'I' {
        layout::lemma_no_word(src, pos, "Int64"@);
    }
    if t[0] != 'F' {
        layout::lemma_no_word(src, pos, "Float64"@);
    }
    if t[0] != 'B' {
        layout::lemma_no_word(src, pos, "Bool"@);
    }
    if t[0] != 'S' {
        layout::lemma_no_word(src, pos, "String"@);
    }
    if t[0] != 'T' {
        layout::lemma_no_word(src, pos, "Timestamp"@);
    }
    if ty is Bytes {
        assert(src.chars[p + 1] == t[1]);
        if text::word_at(src, pos, "Bool"@) is Some {
            assert(src.chars.subrange(p, p + 4)[1] == src.chars[p + 1]);
        }
    }
}

proof fn lemma_vector_type(
    src: SourceView,
    pos: int,
    dim: u32,
    digits: spec_fn(int) -> Seq<char>,
    end: int,
)
    requires
        laid_out(src.chars, pos, type_tokens(ScalarType::Vector { dim }, digits), end),
        is_numbering(digits),
        0 <= pos <= src.chars.len(),
    ensures
        parser::scalar_type_at(src, pos) == Some((ScalarType::Vector { dim }, end)),
        pos < end <= src.chars.len(),
{
    assert("Vector"@.len() > 0 && "Vector"@[0] == 'V' && "<"@.len() > 0 && "<"@[0] == '<'
        && "Float32"@.len() > 0 && "Float32"@[0] == 'F' && ","@.len() > 0 && ","@[0] == ','
        && ">"@.len() > 0 && ">"@[0] == '>' && "List"@.len() > 0 && "List"@[0] == 'L') by {
        lemma_words();
    }
    let chars = src.chars;
    let n = digits(dim as int);
    let close = seq![">"@];
    let t4 = seq![n] + close;
    let t3 = seq![","@] + t4;
    let t2 = seq!["Float32"@] + t3;
    let t1 = seq!["<"@] + t2;
    let a = layout::lemma_split(chars, pos, seq!["Vector"@], t1, end);
    let b = layout::lemma_split(chars, a, seq!["<"@], t2, end);
    let c = layout::lemma_split(chars, b, seq!["Float32"@], t3, end);
    let d = layout::lemma_split(chars, c, seq![","@], t4, end);
    let e = layout::lemma_split(chars, d, seq![n], close, end);
    layout::lemma_word(src, pos, "Vector"@, a);
    layout::lemma_head(src, pos, seq!["Vector"@], a);
    layout::lemma_no_word(src, pos, "List"@);
    layout::lemma_word(src, a, "<"@, b);
    layout::lemma_word(src, b, "Float32"@, c);
    layout::lemma_word(src, c, ","@, d);
    layout::lemma_number(src, d, n, dim as int, e, u32::MAX as int);
    layout::lemma_word(src, e, ">"@, end);
}

proof fn lemma_type(
    src: SourceView,
    pos: int,
    ty: ScalarType,
    digits: spec_fn(int) -> Seq<char>,
    end: int,
)
    requires
        laid_out(src.chars, pos, type_tokens(ty, digits), end),
        is_numbering(digits),
        0 <= pos <= src.chars.len(),
    ensures
        parser::scalar_type_at(src, pos) == Some((ty, end)),
        pos < end <= src.chars.len(),
    decreases ty,
{
    match ty {
        ScalarType::List(element) => {
            assert("<"@.len() > 0 && "<"@[0] == '<' && ">"@.len() > 0 && ">"@[0] == '>'
                && "List"@.len() > 0 && "List"@[0] == 'L') by {
                lemma_words();
            }
            let chars = src.chars;
            let x = type_tokens(*element, digits);
            let close = seq![">"@];
            let a = layout::lemma_split(chars, pos, seq!["List"@], seq!["<"@] + (x + close), end);
            let b = layout::lemma_split(chars, a, seq!["<"@], x + close, end);
            let c = layout::lemma_split(chars, b, x, close, end);
            layout::lemma_word(src, pos, "List"@, a);
            layout::lemma_word(src, a, "<"@, b);
            layout::lemma_within(chars, b, x, c);
            lemma_type(src, b, *element, digits, c);
            layout::lemma_word(src, c, ">"@, end);
            assert(ScalarType::List(Box::new(*element)) == ty);
        },
        ScalarType::Vector { dim } => {
            lemma_vector_type(src, pos, dim, digits, end);
        },
        _ => {
            lemma_simple_type(src, pos, ty, type_tokens(ty, digits)[0], end);
        },
    }
}

proof fn lemma_marker(src: SourceView, pos: int, there: bool, word: Seq<char>, end: int)
    requires
        laid_out(src.chars, pos, marker_tokens(there, word), end),
        word.len() > 0,
        layout::begins(word[0]),
        !there ==> head(src, end) != Some(word[0]),
        0 <= pos <= src.chars.len(),
    ensures
        parser::marker_at(src, pos, word) == (there, end),
        pos <= end <= src.chars.len(),
{
    if there {
        layout::lemma_word(src, pos, word, end);
    } else {
        layout::lemma_no_word(src, pos, word);
    }
}

proof fn lemma_property(
    src: SourceView,
    pos: int,
    p: PropertyDefView,
    digits: spec_fn(int) -> Seq<char>,
    end: int,
)
    requires
        laid_out(src.chars, pos, property_tokens(p, digits), end),
        layout::is_name(p.name),
        is_numbering(digits),
        head(src, end) != Some('?'),
        0 <= pos <= src.chars.len(),
    ensures
        parser::property_decl_at(src, pos) == Some((p, end)),
        pos < end <= src.chars.len(),
        head(src, pos) != Some('?'),
{
    lemma_words();
    let chars = src.chars;
    let x = marker_tokens(p.indexed, "@indexed"@);
    let y = type_tokens(p.ty, digits);
    let z = marker_tokens(p.optional, "?"@);
    let t2 = seq![":"@] + (y + z);
    let t1 = seq![p.name] + t2;
    let a = layout::lemma_split(chars, pos, x, t1, end);
    let b = layout::lemma_split(chars, a, seq![p.name], t2, end);
    let c = layout::lemma_split(chars, b, seq![":"@], y + z, end);
    let d = layout::lemma_split(chars, c, y, z, end);
    assert(layout::joins(p.name[0]));
    layout::lemma_within(chars, pos, x, a);
    layout::lemma_name(src, a, p.name, b);
    lemma_marker(src, pos, p.indexed, "@indexed"@, a);
    if p.indexed {
        layout::lemma_head(src, pos, x, a);
    }
    layout::lemma_word(src, b, ":"@, c);
    lemma_type(src, c, p.ty, digits, d);
    lemma_marker(src, d, p.optional, "?"@, end);
}

proof fn lemma_properties(
    src: SourceView,
    pos: int,
    ps: Seq<PropertyDefView>,
    digits: spec_fn(int) -> Seq<char>,
    end: int,
)
    requires
        laid_out(src.chars, pos, properties_tokens(ps, digits), end),
        writable_properties(ps),
        is_numbering(digits),
        head(src, end) == Some('}'),
        0 <= pos <= src.chars.len(),
    ensures
        parser::properties_at(src, pos) == (ps, end),
        pos <= end <= src.chars.len(),
        head(src, pos) != Some('?'),
    decreases ps.len(),
{
    lemma_words();
    if ps.len() == 0 {
        assert(ps =~= Seq::<PropertyDefView>::empty());
        layout::lemma_no_word(src, pos, "@indexed"@);
        layout::lemma_no_name(src, pos);
    } else {
        let rest = ps.drop_first();
        assert forall|i: int| 0 <= i < rest.len() implies layout::is_name(
            (#[trigger] rest[i]).name,
        ) by {
            assert(rest[i] == ps[i + 1]);
        }
        let (x, y) = (property_tokens(ps[0], digits), properties_tokens(rest, digits));
        let a = layout::lemma_split(src.chars, pos, x, y, end);
        layout::lemma_within(src.chars, pos, x, a);
        lemma_properties(src, a, rest, digits, end);
        lemma_property(src, pos, ps[0], digits, a);
        assert(seq![ps[0]] + rest =~= ps);
    }
}

proof fn lemma_decl_head(
    src: SourceView,
    pos: int,
    keyword: Seq<char>,
    name: Seq<char>,
    rest: Seq<Seq<char>>,
    end: int,
) -> (p: int)
    requires
        laid_out(src.chars, pos, seq![keyword] + (seq![name] + (seq!["{"@] + rest)), end),
        keyword.len() > 0,
        layout::begins(keyword[0]),
        layout::is_name(name),
        0 <= pos <= src.chars.len(),
    ensures
        parser::decl_head_at(src, pos, keyword) == Some((name, p)),
        laid_out(src.chars, p, rest, end),
        pos < p <= src.chars.len(),
        head(src, pos) == Some(keyword[0]),
{
    lemma_keywords();
    let t2 = seq!["{"@] + rest;
    let t1 = seq![name] + t2;
    let a = layout::lemma_split(src.chars, pos, seq![keyword], t1, end);
    let b = layout::lemma_split(src.chars, a, seq![name], t2, end);
    let c = layout::lemma_split(src.chars, b, seq!["{"@], rest, end);
    layout::lemma_word(src, pos, keyword, a);
    layout::lemma_head(src, pos, seq![keyword], a);
    layout::lemma_name(src, a, name, b);
    layout::lemma_word(src, b, "{"@, c);
    c
}

proof fn lemma_label_field(
    src: SourceView,
    pos: int,
    field: Seq<char>,
    label: Seq<char>,
    rest: Seq<Seq<char>>,
    end: int,
) -> (p: int)
    requires
        laid_out(src.chars, pos, seq![field] + (seq![":"@] + (seq![label] + rest)), end),
        field.len() > 0,
        layout::begins(field[0]),
        layout::is_name(label),
        0 <= pos <= src.chars.len(),
    ensures
        parser::label_field_at(src, pos, field) == Some((label, p)),
        laid_out(src.chars, p, rest, end),
        pos < p <= src.chars.len(),
{
    lemma_keywords();
    let t2 = seq![label] + rest;
    let t1 = seq![":"@] + t2;
    let a = layout::lemma_split(src.chars, pos, seq![field], t1, end);
    let b = layout::lemma_split(src.chars, a, seq![":"@], t2, end);
    let c = layout::lemma_split(src.chars, b, seq![label], rest, end);
    layout::lemma_word(src, pos, field, a);
    layout::lemma_word(src, a, ":"@, b);
    layout::lemma_name(src, b, label, c);
    c
}

proof fn lemma_decl(
    src: SourceView,
    pos: int,
    d: DeclView,
    digits: spec_fn(int) -> Seq<char>,
    end: int,
)
    requires
        laid_out(src.chars, pos, decl_tokens(d, digits), end),
        writable_decl(d),
        is_numbering(digits),
        0 <= pos <= src.chars.len(),
    ensures
        parser::decl_at(src, pos) == Some((d, end)),
        pos < end <= src.chars.len(),
        head(src, pos) != Some('}'),
{
    lemma_keywords();
    let close = seq!["}"@];
    match d {
        DeclView::Node(n) => {
            let x = properties_tokens(n.properties, digits);
            let t3 = seq!["NodeId"@] + (x + close);
            let t2 = seq![":"@] + t3;
            let t1 = seq!["id"@] + t2;
            let a = lemma_decl_head(src, pos, "node"@, n.label, t1, end);
            let b = layout::lemma_split(src.chars, a, seq!["id"@], t2, end);
            let c = layout::lemma_split(src.chars, b, seq![":"@], t3, end);
            let e = layout::lemma_split(src.chars, c, seq!["NodeId"@], x + close, end);
            let f = layout::lemma_split(src.chars, e, x, close, end);
            layout::lemma_word(src, a, "id"@, b);
            layout::lemma_word(src, b, ":"@, c);
            layout::lemma_word(src, c, "NodeId"@, e);
            layout::lemma_within(src.chars, e, x, f);
            layout::lemma_word(src, f, "}"@, end);
            layout::lemma_head(src, f, close, end);
            lemma_properties(src, e, n.properties, digits, f);
        },
        DeclView::Edge(edge) => {
            let x = properties_tokens(edge.properties, digits);
            let t2 = seq!["to"@] + (seq![":"@] + (seq![edge.to] + (x + close)));
            let t1 = seq!["from"@] + (seq![":"@] + (seq![edge.from] + t2));
            let a = lemma_decl_head(src, pos, "edge"@, edge.edge_type, t1, end);
            layout::lemma_no_word(src, pos, "node"@);
            let b = lemma_label_field(src, a, "from"@, edge.from, t2, end);
            let c = lemma_label_field(src, b, "to"@, edge.to, x + close, end);
            let f = layout::lemma_split(src.chars, c, x, close, end);
            layout::lemma_within(src.chars, c, x, f);
            layout::lemma_word(src, f, "}"@, end);
            layout::lemma_head(src, f, close, end);
            lemma_properties(src, c, edge.properties, digits, f);
        },
    }
}

proof fn lemma_decls(
    src: SourceView,
    pos: int,
    ds: Seq<DeclView>,
    digits: spec_fn(int) -> Seq<char>,
    end: int,
)
    requires
        laid_out(src.chars, pos, decls_tokens(ds, digits), end),
        forall|i: int| 0 <= i < ds.len() ==> writable_decl(#[trigger] ds[i]),
        is_numbering(digits),
        head(src, end) == Some('}'),
        0 <= pos <= src.chars.len(),
    ensures
        parser::decls_at(src, pos) == (ds, end),
        pos <= end <= src.chars.len(),
    decreases ds.len(),
{
    lemma_keywords();
    if ds.len() == 0 {
        assert(ds =~= Seq::<DeclView>::empty());
        layout::lemma_no_word(src, pos, "node"@);
        layout::lemma_no_word(src, pos, "edge"@);
    } else {
        let rest = ds.drop_first();
        let (x, y) = (decl_tokens(ds[0], digits), decls_tokens(rest, digits));
        let a = layout::lemma_split(src.chars, pos, x, y, end);
        layout::lemma_within(src.chars, pos, x, a);
        assert(writable_decl(ds[0]));
        assert forall|i: int| 0 <= i < rest.len() implies writable_decl(#[trigger] rest[i]) by {
            assert(rest[i] == ds[i + 1]);
        }
        lemma_decl(src, pos, ds[0], digits, a);
        lemma_decls(src, a, rest, digits, end);
        assert(seq![ds[0]] + rest =~= ds);
    }
}

/// What is written of declarations reads as these declarations, in their
/// order: their names, the labels that edges join, and the properties with
/// their types and marks, whatever blank space stands between the tokens.
pub proof fn law_written_declarations_read_back(
    source: Seq<char>,
    version: Seq<char>,
    ds: Seq<DeclView>,
    digits: spec_fn(int) -> Seq<char>,
)
    requires
        layout::is_name(version),
        forall|i: int| 0 <= i < ds.len() ==> writable_decl(#[trigger] ds[i]),
        is_numbering(digits),
        layout::is_layout(source, schema_tokens(version, ds, digits)),
    ensures
        parser::declarations_of(source) == Some((version, ds)),
{
    lemma_keywords();
    let src = SourceView { chars: source, comments: true };
    let end = choose|end: int| #[trigger]
        laid_out(source, 0, schema_tokens(version, ds, digits), end) && end <= source.len()
            && forall|k: int|
            end <= k < source.len() ==> (#[trigger] source[k] == ' ' || source[k] == '\t'
                || source[k] == '\r' || source[k] == '\n');
    let x = decls_tokens(ds, digits);
    let close = seq!["}"@];
    let a = lemma_decl_head(src, 0, "schema"@, version, x + close, end);
    let b = layout::lemma_split(source, a, x, close, end);
    layout::lemma_within(source, a, x, b);
    layout::lemma_word(src, b, "}"@, end);
    layout::lemma_head(src, b, close, end);
    lemma_decls(src, a, ds, digits, b);
    layout::lemma_rest_is_blank(src, end);
}

/// That a label is declared among nodes.
pub open spec fn has_label(nodes: Seq<NodeDefView>, label: Seq<char>) -> bool {
    exists|i: int| 0 <= i < nodes.len() && (#[trigger] nodes[i]).label == label
}

/// That a type is declared among edges.
pub open spec fn has_type(edges: Seq<EdgeDefView>, edge_type: Seq<char>) -> bool {
    exists|i: int| 0 <= i < edges.len() && (#[trigger] edges[i]).edge_type == edge_type
}

/// A label is found exactly where it is declared, and what is found is a
/// declaration of it.
pub proof fn law_a_label_is_found_where_it_is_declared(nodes: Seq<NodeDefView>, label: Seq<char>)
    ensures
        schema::find_node(nodes, label) is Some <==> has_label(nodes, label),
        schema::find_node(nodes, label) matches Some(n) ==> n.label == label && nodes.contains(n),
    decreases nodes.len(),
{
    if nodes.len() > 0 {
        let rest = nodes.drop_first();
        law_a_label_is_found_where_it_is_declared(rest, label);
        if has_label(rest, label) {
            let i = choose|i: int| 0 <= i < rest.len() && (#[trigger] rest[i]).label == label;
            assert(nodes[i + 1].label == label);
        }
        if has_label(nodes, label) && nodes[0].label != label {
            let i = choose|i: int| 0 <= i < nodes.len() && (#[trigger] nodes[i]).label == label;
            assert(rest[i - 1].label == label);
        }
        if let Some(n) = schema::find_node(nodes, label) {
            if nodes[0].label == label {
                assert(nodes[0] == n);
            } else {
                let i = choose|i: int| 0 <= i < rest.len() && rest[i] == n;
                assert(nodes[i + 1] == n);
            }
        }
    }
}

/// An edge type is found exactly where it is declared, and what is found is a
/// declaration of it.
pub proof fn law_a_type_is_found_where_it_is_declared(
    edges: Seq<EdgeDefView>,
    edge_type: Seq<char>,
)
    ensures
        schema::find_edge(edges, edge_type) is Some <==> has_type(edges, edge_type),
        schema::find_edge(edges, edge_type) matches Some(e) ==> e.edge_type == edge_type
            && edges.contains(e),
    decreases edges.len(),
{
    if edges.len() > 0 {
        let rest = edges.drop_first();
        law_a_type_is_found_where_it_is_declared(rest, edge_type);
        if has_type(rest, edge_type) {
            let i = choose|i: int|
                0 <= i < rest.len() && (#[trigger] rest[i]).edge_type == edge_type;
            assert(edges[i + 1].edge_type == edge_type);
        }
        if has_type(edges, edge_type) && edges[0].edge_type != edge_type {
            let i = choose|i: int|
                0 <= i < edges.len() && (#[trigger] edges[i]).edge_type == edge_type;
            assert(rest[i - 1].edge_type == edge_type);
        }
        if let Some(e) = schema::find_edge(edges, edge_type) {
            if edges[0].edge_type == edge_type {
                assert(edges[0] == e);
            } else {
                let i = choose|i: int| 0 <= i < rest.len() && rest[i] == e;
                assert(edges[i + 1] == e);
            }
        }
    }
}

/// The property that is found is the first one of its name.
pub proof fn law_a_property_is_found_where_it_is_declared(
    properties: Seq<PropertyDefView>,
    name: Seq<char>,
    p: PropertyDefView,
)
    ensures
        schema::find_property(properties, name) == Some(p) <==> exists|i: int|
            0 <= i < properties.len() && #[trigger] properties[i] == p && p.name == name && forall|
                j: int,
            |
                0 <= j < i ==> (#[trigger] properties[j]).name != name,
    decreases properties.len(),
{
    if properties.len() > 0 {
        let rest = properties.drop_first();
        law_a_property_is_found_where_it_is_declared(rest, name, p);
        if schema::find_property(properties, name) == Some(p) {
            if properties[0].name == name {
                assert(properties[0] == p);
            } else {
                let i = choose|i: int|
                    0 <= i < rest.len() && #[trigger] rest[i] == p && p.name == name && forall|
                        j: int,
                    |
                        0 <= j < i ==> (#[trigger] rest[j]).name != name;
                assert(properties[i + 1] == p);
                assert forall|j: int| 0 <= j < i + 1 implies (#[trigger] properties[j]).name
                    != name by {
                    if j > 0 {
                        assert(rest[j - 1] == properties[j]);
                    }
                }
            }
        }
        if exists|i: int|
            0 <= i < properties.len() && #[trigger] properties[i] == p && p.name == name && forall|
                j: int,
            |
                0 <= j < i ==> (#[trigger] properties[j]).name != name {
            let i = choose|i: int|
                0 <= i < properties.len() && #[trigger] properties[i] == p && p.name == name
                    && forall|j: int| 0 <= j < i ==> (#[trigger] properties[j]).name != name;
            if i > 0 {
                assert(properties[0].name != name);
                assert(rest[i - 1] == p);
                assert forall|j: int| 0 <= j < i - 1 implies (#[trigger] rest[j]).name != name by {
                    assert(properties[j + 1] == rest[j]);
                }
            }
        }
    }
}

proof fn lemma_inserted_node(nodes: Seq<NodeDefView>, def: NodeDefView, x: NodeDefView)
    ensures
        parser::insert_node(nodes, def).contains(x) <==> x == def || nodes.contains(x),
    decreases nodes.len(),
{
    if nodes.len() == 0 {
        laws::lemma_contains_push(nodes, def, x);
        assert(parser::insert_node(nodes, def) =~= nodes.push(def));
    } else {
        let rest = nodes.drop_first();
        lemma_inserted_node(rest, def, x);
        assert(nodes =~= seq![nodes[0]] + rest);
        lemma_contains_front(nodes[0], rest, x);
        lemma_contains_front(nodes[0], parser::insert_node(rest, def), x);
        lemma_contains_front(def, nodes, x);
    }
}

proof fn lemma_inserted_edge(edges: Seq<EdgeDefView>, def: EdgeDefView, x: EdgeDefView)
    ensures
        parser::insert_edge(edges, def).contains(x) <==> x == def || edges.contains(x),
    decreases edges.len(),
{
    if edges.len() == 0 {
        laws::lemma_contains_push(edges, def, x);
        assert(parser::insert_edge(edges, def) =~= edges.push(def));
    } else {
        let rest = edges.drop_first();
        lemma_inserted_edge(rest, def, x);
        assert(edges =~= seq![edges[0]] + rest);
        lemma_contains_front(edges[0], rest, x);
        lemma_contains_front(edges[0], parser::insert_edge(rest, def), x);
        lemma_contains_front(def, edges, x);
    }
}

proof fn lemma_contains_front<A>(a: A, rest: Seq<A>, x: A)
    ensures
        (seq![a] + rest).contains(x) <==> a == x || rest.contains(x),
{
    let all = seq![a] + rest;
    if all.contains(x) {
        let i = choose|i: int| 0 <= i < all.len() && all[i] == x;
        if i > 0 {
            assert(rest[i - 1] == x);
        }
    }
    if a == x {
        assert(all[0] == x);
    }
    if rest.contains(x) {
        let i = choose|i: int| 0 <= i < rest.len() && rest[i] == x;
        assert(all[i + 1] == x);
    }
}

/// That two declarations declare the same: two nodes of one label, or two edges
/// of one type.
pub open spec fn same_subject(a: DeclView, b: DeclView) -> bool {
    match (a, b) {
        (DeclView::Node(x), DeclView::Node(y)) => x.label == y.label,
        (DeclView::Edge(x), DeclView::Edge(y)) => x.edge_type == y.edge_type,
        _ => false,
    }
}

/// That nothing is declared twice.
pub open spec fn no_repetition(ds: Seq<DeclView>) -> bool {
    forall|i: int, j: int|
        0 <= i < j < ds.len() ==> !same_subject(#[trigger] ds[i], #[trigger] ds[j])
}

spec fn is_new(d: DeclView, nodes: Seq<NodeDefView>, edges: Seq<EdgeDefView>) -> bool {
    match d {
        DeclView::Node(n) => !has_label(nodes, n.label),
        DeclView::Edge(e) => !has_type(edges, e.edge_type),
    }
}

spec fn all_new(ds: Seq<DeclView>, nodes: Seq<NodeDefView>, edges: Seq<EdgeDefView>) -> bool {
    forall|i: int| 0 <= i < ds.len() ==> is_new(#[trigger] ds[i], nodes, edges)
}

proof fn lemma_is_new_after(
    d: DeclView,
    first: DeclView,
    nodes: Seq<NodeDefView>,
    edges: Seq<EdgeDefView>,
)
    ensures
        match first {
            DeclView::Node(n) => is_new(d, parser::insert_node(nodes, n), edges) <==> is_new(
                d,
                nodes,
                edges,
            ) && !same_subject(first, d),
            DeclView::Edge(e) => is_new(d, nodes, parser::insert_edge(edges, e)) <==> is_new(
                d,
                nodes,
                edges,
            ) && !same_subject(first, d),
        },
{
    match (first, d) {
        (DeclView::Node(n), DeclView::Node(m)) => {
            let after = parser::insert_node(nodes, n);
            if has_label(after, m.label) {
                let i = choose|i: int|
                    0 <= i < after.len() && (#[trigger] after[i]).label == m.label;
                assert(after.contains(after[i]));
                lemma_inserted_node(nodes, n, after[i]);
                if after[i] != n {
                    let k = choose|k: int| 0 <= k < nodes.len() && nodes[k] == after[i];
                    assert(nodes[k].label == m.label);
                }
            }
            if has_label(nodes, m.label) {
                let k = choose|k: int|
                    0 <= k < nodes.len() && (#[trigger] nodes[k]).label == m.label;
                assert(nodes.contains(nodes[k]));
                lemma_inserted_node(nodes, n, nodes[k]);
                let i = choose|i: int| 0 <= i < after.len() && after[i] == nodes[k];
                assert(after[i].label == m.label);
            }
            if n.label == m.label {
                lemma_inserted_node(nodes, n, n);
                let i = choose|i: int| 0 <= i < after.len() && after[i] == n;
                assert(after[i].label == m.label);
            }
        },
        (DeclView::Edge(n), DeclView::Edge(m)) => {
            let after = parser::insert_edge(edges, n);
            if has_type(after, m.edge_type) {
                let i = choose|i: int|
                    0 <= i < after.len() && (#[trigger] after[i]).edge_type == m.edge_type;
                assert(after.contains(after[i]));
                lemma_inserted_edge(edges, n, after[i]);
                if after[i] != n {
                    let k = choose|k: int| 0 <= k < edges.len() && edges[k] == after[i];
                    assert(edges[k].edge_type == m.edge_type);
                }
            }
            if has_type(edges, m.edge_type) {
                let k = choose|k: int|
                    0 <= k < edges.len() && (#[trigger] edges[k]).edge_type == m.edge_type;
                assert(edges.contains(edges[k]));
                lemma_inserted_edge(edges, n, edges[k]);
                let i = choose|i: int| 0 <= i < after.len() && after[i] == edges[k];
                assert(after[i].edge_type == m.edge_type);
            }
            if n.edge_type == m.edge_type {
                lemma_inserted_edge(edges, n, n);
                let i = choose|i: int| 0 <= i < after.len() && after[i] == n;
                assert(after[i].edge_type == m.edge_type);
            }
        },
        _ => {},
    }
}

proof fn lemma_declare(
    ds: Seq<DeclView>,
    nodes: Seq<NodeDefView>,
    edges: Seq<EdgeDefView>,
    n: NodeDefView,
    e: EdgeDefView,
)
    ensures
        parser::declare(ds, nodes, edges) is Ok <==> no_repetition(ds) && all_new(ds, nodes, edges),
        parser::declare(ds, nodes, edges) matches Ok(r) ==> (r.0.contains(n) <==> nodes.contains(n)
            || ds.contains(DeclView::Node(n))),
        parser::declare(ds, nodes, edges) matches Ok(r) ==> (r.1.contains(e) <==> edges.contains(e)
            || ds.contains(DeclView::Edge(e))),
    decreases ds.len(),
{
    if ds.len() > 0 {
        let first = ds[0];
        let rest = ds.drop_first();
        assert(ds =~= seq![first] + rest);
        lemma_contains_front(first, rest, DeclView::Node(n));
        lemma_contains_front(first, rest, DeclView::Edge(e));
        let (more_nodes, more_edges) = match first {
            DeclView::Node(def) => (parser::insert_node(nodes, def), edges),
            DeclView::Edge(def) => (nodes, parser::insert_edge(edges, def)),
        };
        match first {
            DeclView::Node(def) => {
                law_a_label_is_found_where_it_is_declared(nodes, def.label);
                lemma_inserted_node(nodes, def, n);
            },
            DeclView::Edge(def) => {
                law_a_type_is_found_where_it_is_declared(edges, def.edge_type);
                lemma_inserted_edge(edges, def, e);
            },
        }
        lemma_declare(rest, more_nodes, more_edges, n, e);
        assert forall|i: int| 0 <= i < rest.len() implies (is_new(
            #[trigger] rest[i],
            more_nodes,
            more_edges,
        ) <==> is_new(rest[i], nodes, edges) && !same_subject(first, rest[i])) by {
            lemma_is_new_after(rest[i], first, nodes, edges);
        }
        if no_repetition(ds) && all_new(ds, nodes, edges) {
            assert(is_new(ds[0], nodes, edges));
            assert forall|i: int, j: int| 0 <= i < j < rest.len() implies !same_subject(
                #[trigger] rest[i],
                #[trigger] rest[j],
            ) by {
                assert(!same_subject(ds[i + 1], ds[j + 1]));
            }
            assert forall|i: int| 0 <= i < rest.len() implies is_new(
                #[trigger] rest[i],
                more_nodes,
                more_edges,
            ) by {
                assert(!same_subject(ds[0], ds[i + 1]));
                assert(is_new(ds[i + 1], nodes, edges));
            }
        }
        if parser::declare(ds, nodes, edges) is Ok {
            assert(is_new(first, nodes, edges));
            assert forall|i: int, j: int| 0 <= i < j < ds.len() implies !same_subject(
                #[trigger] ds[i],
                #[trigger] ds[j],
            ) by {
                assert(is_new(rest[j - 1], more_nodes, more_edges));
                if i > 0 {
                    assert(!same_subject(rest[i - 1], rest[j - 1]));
                }
            }
            assert forall|i: int| 0 <= i < ds.len() implies is_new(
                #[trigger] ds[i],
                nodes,
                edges,
            ) by {
                if i > 0 {
                    assert(is_new(rest[i - 1], more_nodes, more_edges));
                }
            }
        }
    }
}

proof fn lemma_endpoints(nodes: Seq<NodeDefView>, edges: Seq<EdgeDefView>)
    ensures
        parser::endpoint_error(nodes, edges) is None <==> forall|i: int|
            0 <= i < edges.len() ==> has_label(nodes, (#[trigger] edges[i]).from) && has_label(
                nodes,
                edges[i].to,
            ),
    decreases edges.len(),
{
    if edges.len() > 0 {
        let rest = edges.drop_first();
        lemma_endpoints(nodes, rest);
        law_a_label_is_found_where_it_is_declared(nodes, edges[0].from);
        law_a_label_is_found_where_it_is_declared(nodes, edges[0].to);
        if parser::endpoint_error(nodes, edges) is None {
            assert forall|i: int| 0 <= i < edges.len() implies has_label(
                nodes,
                (#[trigger] edges[i]).from,
            ) && has_label(nodes, edges[i].to) by {
                if i > 0 {
                    assert(rest[i - 1] == edges[i]);
                }
            }
        }
        if forall|i: int|
            0 <= i < edges.len() ==> has_label(nodes, (#[trigger] edges[i]).from) && has_label(
                nodes,
                edges[i].to,
            ) {
            assert(has_label(nodes, edges[0].from));
            assert forall|i: int| 0 <= i < rest.len() implies has_label(
                nodes,
                (#[trigger] rest[i]).from,
            ) && has_label(nodes, rest[i].to) by {
                assert(rest[i] == edges[i + 1]);
            }
        }
    }
}

/// That a label is declared by one of the declarations.
pub open spec fn declares_label(ds: Seq<DeclView>, label: Seq<char>) -> bool {
    exists|n: NodeDefView| #[trigger] ds.contains(DeclView::Node(n)) && n.label == label
}

/// That the edges of declarations join labels that they declare.
pub open spec fn ends_are_declared(ds: Seq<DeclView>) -> bool {
    forall|e: EdgeDefView| #[trigger]
        ds.contains(DeclView::Edge(e)) ==> declares_label(ds, e.from) && declares_label(ds, e.to)
}

/// A schema holds exactly what its text declares, under the version that the
/// text gives. A text is refused exactly where it declares a label or an edge
/// type twice, or an edge between labels that it does not declare.
pub proof fn law_a_schema_is_what_is_declared(
    source: Seq<char>,
    version: Seq<char>,
    ds: Seq<DeclView>,
)
    requires
        parser::declarations_of(source) == Some((version, ds)),
    ensures
        parser::schema_of(source) is Ok <==> no_repetition(ds) && ends_are_declared(ds),
        parser::schema_of(source) matches Ok(s) ==> s.version == version,
        parser::schema_of(source) matches Ok(s) ==> forall|n: NodeDefView| #[trigger]
            s.nodes.contains(n) <==> ds.contains(DeclView::Node(n)),
        parser::schema_of(source) matches Ok(s) ==> forall|e: EdgeDefView| #[trigger]
            s.edges.contains(e) <==> ds.contains(DeclView::Edge(e)),
        parser::schema_of(source) matches Ok(s) ==> schema::sorted_nodes(s.nodes)
            && schema::sorted_edges(s.edges),
{
    let n0: NodeDefView = arbitrary();
    let e0: EdgeDefView = arbitrary();
    let empty_nodes = Seq::<NodeDefView>::empty();
    let empty_edges = Seq::<EdgeDefView>::empty();
    lemma_declare(ds, empty_nodes, empty_edges, n0, e0);
    parser::law_schemas_are_well_formed(source);
    assert(all_new(ds, empty_nodes, empty_edges));
    if let Ok((nodes, edges)) = parser::declare(ds, empty_nodes, empty_edges) {
        assert forall|n: NodeDefView| #[trigger] nodes.contains(n) <==> ds.contains(
            DeclView::Node(n),
        ) by {
            lemma_declare(ds, empty_nodes, empty_edges, n, e0);
        }
        assert forall|e: EdgeDefView| #[trigger] edges.contains(e) <==> ds.contains(
            DeclView::Edge(e),
        ) by {
            lemma_declare(ds, empty_nodes, empty_edges, n0, e);
        }
        assert forall|label: Seq<char>| #[trigger] has_label(nodes, label) <==> declares_label(
            ds,
            label,
        ) by {
            if has_label(nodes, label) {
                let i = choose|i: int| 0 <= i < nodes.len() && (#[trigger] nodes[i]).label == label;
                assert(nodes.contains(nodes[i]));
                assert(ds.contains(DeclView::Node(nodes[i])));
            }
            if declares_label(ds, label) {
                let n = choose|n: NodeDefView| #[trigger]
                    ds.contains(DeclView::Node(n)) && n.label == label;
                assert(nodes.contains(n));
                let i = choose|i: int| 0 <= i < nodes.len() && nodes[i] == n;
                assert(nodes[i].label == label);
            }
        }
        lemma_endpoints(nodes, edges);
        if parser::endpoint_error(nodes, edges) is None {
            assert forall|e: EdgeDefView| #[trigger] ds.contains(DeclView::Edge(e)) implies
                declares_label(ds, e.from) && declares_label(ds, e.to) by {
                assert(edges.contains(e));
                let i = choose|i: int| 0 <= i < edges.len() && edges[i] == e;
                assert(has_label(nodes, edges[i].from) && has_label(nodes, edges[i].to));
            }
        }
        if ends_are_declared(ds) {
            assert forall|i: int| 0 <= i < edges.len() implies has_label(
                nodes,
                (#[trigger] edges[i]).from,
            ) && has_label(nodes, edges[i].to) by {
                assert(edges.contains(edges[i]));
                assert(ds.contains(DeclView::Edge(edges[i])));
            }
        }
    }
}

/// What is said of a declaration that repeats an earlier one.
pub open spec fn repetition_text(d: DeclView) -> Seq<char> {
    match d {
        DeclView::Node(n) => "duplicate node label: "@ + n.label,
        DeclView::Edge(e) => "duplicate edge type: "@ + e.edge_type,
    }
}

/// That `j` is the first declaration to repeat an earlier one.
pub open spec fn repeats_first(ds: Seq<DeclView>, j: int) -> bool {
    &&& 0 <= j < ds.len()
    &&& exists|i: int| 0 <= i < j && same_subject(#[trigger] ds[i], ds[j])
    &&& forall|i: int, k: int|
        0 <= i < k < j ==> !same_subject(#[trigger] ds[i], #[trigger] ds[k])
}

/// That an edge does not join declared labels, and `m` says which is missing.
pub open spec fn tells_of_end(ds: Seq<DeclView>, e: EdgeDefView, m: Seq<char>) -> bool {
    ||| !declares_label(ds, e.from) && m == "edge "@ + e.edge_type
        + " references unknown source label "@ + e.from
    ||| declares_label(ds, e.from) && !declares_label(ds, e.to) && m == "edge "@ + e.edge_type
        + " references unknown target label "@ + e.to
}

proof fn lemma_refused(
    ds: Seq<DeclView>,
    nodes: Seq<NodeDefView>,
    edges: Seq<EdgeDefView>,
    m: Seq<char>,
) -> (j: int)
    requires
        parser::declare(ds, nodes, edges) == Err::<
            (Seq<NodeDefView>, Seq<EdgeDefView>),
            Seq<char>,
        >(m),
    ensures
        0 <= j < ds.len(),
        m == repetition_text(ds[j]),
        !is_new(ds[j], nodes, edges) || exists|i: int|
            0 <= i < j && same_subject(#[trigger] ds[i], ds[j]),
        forall|i: int, k: int| 0 <= i < k < j ==> !same_subject(#[trigger] ds[i], #[trigger] ds[k]),
        forall|k: int| 0 <= k < j ==> is_new(#[trigger] ds[k], nodes, edges),
    decreases ds.len(),
{
    let first = ds[0];
    let rest = ds.drop_first();
    match first {
        DeclView::Node(def) => {
            law_a_label_is_found_where_it_is_declared(nodes, def.label);
        },
        DeclView::Edge(def) => {
            law_a_type_is_found_where_it_is_declared(edges, def.edge_type);
        },
    }
    if !is_new(first, nodes, edges) {
        0
    } else {
        let (more_nodes, more_edges) = match first {
            DeclView::Node(def) => (parser::insert_node(nodes, def), edges),
            DeclView::Edge(def) => (nodes, parser::insert_edge(edges, def)),
        };
        let r: int = lemma_refused(rest, more_nodes, more_edges, m);
        let j: int = r + 1;
        assert(ds[j] == rest[r]);
        lemma_is_new_after(rest[r], first, nodes, edges);
        if is_new(rest[r], more_nodes, more_edges) {
            let i = choose|i: int| 0 <= i < r && same_subject(#[trigger] rest[i], rest[r]);
            assert(same_subject(ds[i + 1], ds[j]));
        } else if is_new(ds[j], nodes, edges) {
            assert(same_subject(ds[0], ds[j]));
        }
        assert forall|k: int| 0 <= k < j implies is_new(#[trigger] ds[k], nodes, edges) by {
            if k > 0 {
                lemma_is_new_after(rest[k - 1], first, nodes, edges);
                assert(is_new(rest[k - 1], more_nodes, more_edges));
            }
        }
        assert forall|i: int, k: int| 0 <= i < k < j implies !same_subject(
            #[trigger] ds[i],
            #[trigger] ds[k],
        ) by {
            lemma_is_new_after(rest[k - 1], first, nodes, edges);
            assert(is_new(rest[k - 1], more_nodes, more_edges));
            if i > 0 {
                assert(!same_subject(rest[i - 1], rest[k - 1]));
            }
        }
        j
    }
}

proof fn lemma_end_refused(
    nodes: Seq<NodeDefView>,
    edges: Seq<EdgeDefView>,
    m: Seq<char>,
) -> (i: int)
    requires
        parser::endpoint_error(nodes, edges) == Some(m),
    ensures
        0 <= i < edges.len(),
        (!has_label(nodes, edges[i].from) && m == "edge "@ + edges[i].edge_type
            + " references unknown source label "@ + edges[i].from) || (has_label(
            nodes,
            edges[i].from,
        ) && !has_label(nodes, edges[i].to) && m == "edge "@ + edges[i].edge_type
            + " references unknown target label "@ + edges[i].to),
    decreases edges.len(),
{
    law_a_label_is_found_where_it_is_declared(nodes, edges[0].from);
    law_a_label_is_found_where_it_is_declared(nodes, edges[0].to);
    if has_label(nodes, edges[0].from) && has_label(nodes, edges[0].to) {
        let i: int = lemma_end_refused(nodes, edges.drop_first(), m);
        i + 1
    } else {
        0
    }
}

/// A refused schema is told what is wrong with it: the first declaration that
/// repeats an earlier one, or, where none does, an edge and the label of its
/// that is not declared.
pub proof fn law_a_refused_schema_is_told_why(
    source: Seq<char>,
    version: Seq<char>,
    ds: Seq<DeclView>,
    m: Seq<char>,
)
    requires
        parser::declarations_of(source) == Some((version, ds)),
        parser::schema_of(source) == Err::<SchemaView, Seq<char>>(m),
    ensures
        !no_repetition(ds) ==> exists|j: int| #[trigger]
            repeats_first(ds, j) && m == repetition_text(ds[j]),
        no_repetition(ds) ==> exists|e: EdgeDefView| #[trigger]
            ds.contains(DeclView::Edge(e)) && tells_of_end(ds, e, m),
{
    let n0: NodeDefView = arbitrary();
    let e0: EdgeDefView = arbitrary();
    let empty_nodes = Seq::<NodeDefView>::empty();
    let empty_edges = Seq::<EdgeDefView>::empty();
    lemma_declare(ds, empty_nodes, empty_edges, n0, e0);
    assert(all_new(ds, empty_nodes, empty_edges));
    if !no_repetition(ds) {
        let j: int = lemma_refused(ds, empty_nodes, empty_edges, m);
        assert(is_new(ds[j], empty_nodes, empty_edges));
        assert(repeats_first(ds, j));
    } else {
        let (nodes, edges) = parser::declare(ds, empty_nodes, empty_edges)->Ok_0;
        let i: int = lemma_end_refused(nodes, edges, m);
        lemma_declare(ds, empty_nodes, empty_edges, n0, edges[i]);
        assert(edges.contains(edges[i]));
        assert forall|label: Seq<char>| #[trigger] has_label(nodes, label) <==> declares_label(
            ds,
            label,
        ) by {
            if has_label(nodes, label) {
                let k = choose|k: int| 0 <= k < nodes.len() && (#[trigger] nodes[k]).label == label;
                assert(nodes.contains(nodes[k]));
                lemma_declare(ds, empty_nodes, empty_edges, nodes[k], e0);
                assert(ds.contains(DeclView::Node(nodes[k])));
            }
            if declares_label(ds, label) {
                let n = choose|n: NodeDefView| #[trigger]
                    ds.contains(DeclView::Node(n)) && n.label == label;
                lemma_declare(ds, empty_nodes, empty_edges, n, e0);
                assert(nodes.contains(n));
                let k = choose|k: int| 0 <= k < nodes.len() && nodes[k] == n;
                assert(nodes[k].label == label);
            }
        }
        assert(has_label(nodes, edges[i].from) <==> declares_label(ds, edges[i].from));
        assert(has_label(nodes, edges[i].to) <==> declares_label(ds, edges[i].to));
        assert(ds.contains(DeclView::Edge(edges[i])) && tells_of_end(ds, edges[i], m));
    }
}

} // verus!
