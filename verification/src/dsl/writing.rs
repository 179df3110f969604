//! How queries are written, and that what is written reads back.
//!
//! The tokens of a query are said here with no word of how they are read. A
//! text that lays out the tokens of a query, with whatever blank space between
//! them, reads as that query.
use crate::dsl::parser;
use crate::dsl::{
    ComparisonOp, Direction, EdgePatternView, ExistsSubqueryView, HopRange, LiteralView,
    NodePatternView, OrderByView, PatternStepView, PatternView, PropertyFilterView,
    PropertyRefView, QueryView, ReturnItemView, SortDirection, WhereConditionView,
};
use crate::layout;
use crate::layout::{head, laid_out};
use crate::text;
use crate::text::SourceView;
use vstd::prelude::*;

verus! {

/// What may be written in more than one way: whether a range of one hop is
/// written out, whether brackets with nothing in them are, whether an ascending
/// order is, and which digits write a number.
pub struct Style {
    pub ranges: bool,
    pub brackets: bool,
    pub ascending: bool,
    pub digits: spec_fn(int) -> Seq<char>,
}

/// That the digits of a style write the numbers they stand for.
pub open spec fn is_style(style: Style) -> bool {
    forall|n: int| 0 <= n ==> layout::writes(#[trigger] (style.digits)(n), n)
}

/// Whether a text is a number with a fraction: a sign or none, digits, a point
/// and digits.
pub open spec fn is_fraction(t: Seq<char>) -> bool {
    let d: int = if t.len() > 0 && t[0] == '-' {
        1
    } else {
        0
    };
    exists|k: int|
        d < k < t.len() && #[trigger] t[k] == '.' && layout::is_digits(t.subrange(d, k))
            && layout::is_digits(t.subrange(k + 1, t.len() as int))
}

pub open spec fn writable_literal(l: LiteralView) -> bool {
    match l {
        LiteralView::Int64(_) => true,
        LiteralView::Float64(_) => false,
        LiteralView::FloatText(t) => is_fraction(t),
        LiteralView::Bool(_) => true,
        LiteralView::String(s) => layout::is_quotable(s),
    }
}

pub open spec fn literal_token(l: LiteralView, style: Style) -> Seq<char> {
    match l {
        LiteralView::Int64(n) => if n < 0 {
            seq!['-'] + (style.digits)(-n)
        } else {
            (style.digits)(n as int)
        },
        LiteralView::FloatText(t) => t,
        LiteralView::Bool(b) => if b {
            "true"@
        } else {
            "false"@
        },
        LiteralView::String(s) => layout::quoted(s),
        LiteralView::Float64(_) => seq![],
    }
}

pub open spec fn op_token(op: ComparisonOp) -> Seq<char> {
    match op {
        ComparisonOp::Eq => "="@,
        ComparisonOp::Ne => "<>"@,
        ComparisonOp::Lt => "<"@,
        ComparisonOp::Lte => "<="@,
        ComparisonOp::Gt => ">"@,
        ComparisonOp::Gte => ">="@,
    }
}

/// `name: literal`.
pub open spec fn kv_tokens(f: PropertyFilterView, style: Style) -> Seq<Seq<char>> {
    seq![f.property] + (seq![":"@] + seq![literal_token(f.value, style)])
}

pub open spec fn more_kv_tokens(fs: Seq<PropertyFilterView>, style: Style) -> Seq<Seq<char>>
    decreases fs.len(),
{
    if fs.len() == 0 {
        seq![]
    } else {
        seq![","@] + (kv_tokens(fs[0], style) + more_kv_tokens(fs.drop_first(), style))
    }
}

/// `{name: literal, ..}`, or nothing.
pub open spec fn map_tokens(fs: Seq<PropertyFilterView>, style: Style) -> Seq<Seq<char>> {
    if fs.len() == 0 {
        seq![]
    } else {
        seq!["{"@] + (kv_tokens(fs[0], style) + (more_kv_tokens(fs.drop_first(), style) + seq![
            "}"@,
        ]))
    }
}

/// `:name`, or nothing.
pub open spec fn suffix_tokens(name: Option<Seq<char>>) -> Seq<Seq<char>> {
    match name {
        Some(name) => seq![":"@] + seq![name],
        None => seq![],
    }
}

/// `(alias:Label {..})`.
pub open spec fn node_tokens(n: NodePatternView, style: Style) -> Seq<Seq<char>> {
    seq!["("@] + (seq![n.alias] + (suffix_tokens(n.label) + (map_tokens(n.property_filters, style)
        + seq![")"@])))
}

/// `*min..max`; one hop need not be written.
pub open spec fn hop_tokens(hops: HopRange, style: Style) -> Seq<Seq<char>> {
    if hops.min == 1 && hops.max == 1 && !style.ranges {
        seq![]
    } else {
        seq!["*"@] + (seq![(style.digits)(hops.min as int)] + (seq![".."@] + seq![
            (style.digits)(hops.max as int),
        ]))
    }
}

pub open spec fn alias_tokens(alias: Option<Seq<char>>) -> Seq<Seq<char>> {
    match alias {
        Some(alias) => seq![alias],
        None => seq![],
    }
}

/// `[alias:TYPE*min..max]`; where all of it is left out the brackets need not
/// be written.
pub open spec fn detail_tokens(e: EdgePatternView, style: Style) -> Seq<Seq<char>> {
    if e.alias is None && e.edge_type is None && e.hops.min == 1 && e.hops.max == 1
        && !style.brackets {
        seq![]
    } else {
        seq!["["@] + (alias_tokens(e.alias) + (suffix_tokens(e.edge_type) + (hop_tokens(
            e.hops,
            style,
        ) + seq!["]"@])))
    }
}

/// `-[..]->` or `<-[..]-`.
pub open spec fn edge_tokens(e: EdgePatternView, style: Style) -> Seq<Seq<char>> {
    match e.direction {
        Direction::Outgoing => seq!["-"@] + (detail_tokens(e, style) + seq!["->"@]),
        Direction::Incoming => seq!["<-"@] + (detail_tokens(e, style) + seq!["-"@]),
    }
}

pub open spec fn more_step_tokens(steps: Seq<PatternStepView>, style: Style) -> Seq<Seq<char>>
    decreases steps.len(),
{
    if steps.len() < 2 {
        seq![]
    } else {
        edge_tokens(steps[0]->Edge_0, style) + (node_tokens(steps[1]->Node_0, style)
            + more_step_tokens(steps.skip(2), style))
    }
}

/// A node, and an edge and a node each time after it.
pub open spec fn pattern_tokens(p: PatternView, style: Style) -> Seq<Seq<char>> {
    node_tokens(p.steps[0]->Node_0, style) + more_step_tokens(p.steps.drop_first(), style)
}

/// `alias.property`.
pub open spec fn ref_tokens(r: PropertyRefView) -> Seq<Seq<char>> {
    seq![r.alias] + (seq!["."@] + seq![r.property])
}

pub open spec fn condition_tokens(c: WhereConditionView, style: Style) -> Seq<Seq<char>>
    decreases c,
{
    match c {
        WhereConditionView::Property(alias, f) => ref_tokens(
            PropertyRefView { alias, property: f.property },
        ) + (seq![op_token(f.op)] + seq![literal_token(f.value, style)]),
        WhereConditionView::AliasComparison { left, op, right } => seq![left] + (seq![op_token(op)]
            + seq![right]),
        WhereConditionView::PropertyComparison { left, op, right } => ref_tokens(left) + (seq![
            op_token(op),
        ] + ref_tokens(right)),
        WhereConditionView::NotExists(sub) => seq!["NOT"@] + (seq!["EXISTS"@] + (seq!["{"@] + (
        seq!["MATCH"@] + (pattern_tokens(sub.pattern, style) + (where_tokens(
            sub.where_conditions,
            style,
        ) + seq!["}"@]))))),
    }
}

pub open spec fn more_condition_tokens(cs: Seq<WhereConditionView>, style: Style) -> Seq<Seq<char>>
    decreases cs,
{
    if cs.len() == 0 {
        seq![]
    } else {
        seq!["AND"@] + (condition_tokens(cs[0], style) + more_condition_tokens(
            cs.drop_first(),
            style,
        ))
    }
}

/// `WHERE condition AND ..`, or nothing.
pub open spec fn where_tokens(cs: Seq<WhereConditionView>, style: Style) -> Seq<Seq<char>>
    decreases cs,
{
    if cs.len() == 0 {
        seq![]
    } else {
        seq!["WHERE"@] + (condition_tokens(cs[0], style) + more_condition_tokens(
            cs.drop_first(),
            style,
        ))
    }
}

/// `alias` or `alias.property`.
pub open spec fn item_tokens(item: ReturnItemView) -> Seq<Seq<char>> {
    match item.property {
        Some(property) => seq![item.alias] + (seq!["."@] + seq![property]),
        None => seq![item.alias],
    }
}

pub open spec fn more_item_tokens(items: Seq<ReturnItemView>) -> Seq<Seq<char>>
    decreases items.len(),
{
    if items.len() == 0 {
        seq![]
    } else {
        seq![","@] + (item_tokens(items[0]) + more_item_tokens(items.drop_first()))
    }
}

/// `RETURN item, ..`.
pub open spec fn return_tokens(items: Seq<ReturnItemView>) -> Seq<Seq<char>> {
    seq!["RETURN"@] + (item_tokens(items[0]) + more_item_tokens(items.drop_first()))
}

/// `ASC` or `DESC`; ascending need not be written.
pub open spec fn direction_tokens(direction: SortDirection, style: Style) -> Seq<Seq<char>> {
    match direction {
        SortDirection::Asc => if style.ascending {
            seq!["ASC"@]
        } else {
            seq![]
        },
        SortDirection::Desc => seq!["DESC"@],
    }
}

/// `ORDER BY alias.property ASC`, or nothing.
pub open spec fn order_tokens(o: Option<OrderByView>, style: Style) -> Seq<Seq<char>> {
    match o {
        Some(o) => seq!["ORDER"@] + (seq!["BY"@] + (ref_tokens(
            PropertyRefView { alias: o.alias, property: o.property },
        ) + direction_tokens(o.direction, style))),
        None => seq![],
    }
}

/// `LIMIT n`, or nothing.
pub open spec fn limit_tokens(limit: Option<u64>, style: Style) -> Seq<Seq<char>> {
    match limit {
        Some(n) => seq!["LIMIT"@] + seq![(style.digits)(n as int)],
        None => seq![],
    }
}

/// The tokens that write a query.
pub open spec fn query_tokens(q: QueryView, style: Style) -> Seq<Seq<char>> {
    seq!["MATCH"@] + (pattern_tokens(q.pattern, style) + (where_tokens(q.where_conditions, style)
        + (return_tokens(q.returns) + (order_tokens(q.order_by, style) + limit_tokens(
        q.limit,
        style,
    )))))
}

pub open spec fn writable_name(name: Option<Seq<char>>) -> bool {
    name matches Some(name) ==> layout::is_name(name)
}

/// That the filters of a node can be written: they are for equality.
pub open spec fn writable_filters(fs: Seq<PropertyFilterView>) -> bool {
    forall|i: int|
        0 <= i < fs.len() ==> layout::is_name((#[trigger] fs[i]).property) && fs[i].op
            == ComparisonOp::Eq && writable_literal(fs[i].value)
}

pub open spec fn writable_node(n: NodePatternView) -> bool {
    layout::is_name(n.alias) && writable_name(n.label) && writable_filters(n.property_filters)
}

pub open spec fn writable_edge(e: EdgePatternView) -> bool {
    writable_name(e.alias) && writable_name(e.edge_type)
}

/// That steps are an edge and a node each time.
pub open spec fn writable_steps(steps: Seq<PatternStepView>) -> bool
    decreases steps.len(),
{
    steps.len() == 0 || (steps.len() >= 2 && steps[0] is Edge && steps[1] is Node && writable_edge(
        steps[0]->Edge_0,
    ) && writable_node(steps[1]->Node_0) && writable_steps(steps.skip(2)))
}

pub open spec fn writable_pattern(p: PatternView) -> bool {
    p.steps.len() > 0 && p.steps[0] is Node && writable_node(p.steps[0]->Node_0) && writable_steps(
        p.steps.drop_first(),
    )
}

pub open spec fn writable_ref(r: PropertyRefView) -> bool {
    layout::is_name(r.alias) && layout::is_name(r.property)
}

pub open spec fn writable_condition(c: WhereConditionView) -> bool
    decreases c,
{
    match c {
        WhereConditionView::Property(alias, f) => layout::is_name(alias) && layout::is_name(
            f.property,
        ) && writable_literal(f.value),
        WhereConditionView::AliasComparison { left, op, right } => layout::is_name(left)
            && layout::is_name(right),
        WhereConditionView::PropertyComparison { left, op, right } => writable_ref(left)
            && writable_ref(right),
        WhereConditionView::NotExists(sub) => writable_pattern(sub.pattern) && writable_conditions(
            sub.where_conditions,
        ),
    }
}

pub open spec fn writable_conditions(cs: Seq<WhereConditionView>) -> bool
    decreases cs,
{
    cs.len() == 0 || (writable_condition(cs[0]) && writable_conditions(cs.drop_first()))
}

pub open spec fn writable_items(items: Seq<ReturnItemView>) -> bool {
    forall|i: int|
        0 <= i < items.len() ==> layout::is_name((#[trigger] items[i]).alias) && writable_name(
            items[i].property,
        )
}

/// That a query can be written: its names are names, its texts hold no
/// quotation marks, its doubles are as they are written, its patterns go from
/// node to node, and it returns something.
pub open spec fn writable(q: QueryView) -> bool {
    &&& writable_pattern(q.pattern)
    &&& writable_conditions(q.where_conditions)
    &&& q.returns.len() > 0
    &&& writable_items(q.returns)
    &&& q.order_by matches Some(o) ==> layout::is_name(o.alias) && layout::is_name(o.property)
}

proof fn lemma_words()
    ensures
        "true"@ == seq!['t', 'r', 'u', 'e'],
        "false"@ == seq!['f', 'a', 'l', 's', 'e'],
        "="@ == seq!['='],
        "<>"@ == seq!['<', '>'],
        "<"@ == seq!['<'],
        "<="@ == seq!['<', '='],
        ">"@ == seq!['>'],
        ">="@ == seq!['>', '='],
        ":"@ == seq![':'],
        ","@ == seq![','],
        "{"@ == seq!['{'],
        "}"@ == seq!['}'],
        "("@ == seq!['('],
        ")"@ == seq![')'],
        "*"@ == seq!['*'],
        ".."@ == seq!['.', '.'],
        "."@ == seq!['.'],
        "["@ == seq!['['],
        "]"@ == seq![']'],
        "-"@ == seq!['-'],
        "->"@ == seq!['-', '>'],
        "<-"@ == seq!['<', '-'],
        "NOT"@ == seq!['N', 'O', 'T'],
        "EXISTS"@ == seq!['E', 'X', 'I', 'S', 'T', 'S'],
        "MATCH"@ == seq!['M', 'A', 'T', 'C', 'H'],
        "AND"@ == seq!['A', 'N', 'D'],
        "WHERE"@ == seq!['W', 'H', 'E', 'R', 'E'],
        "RETURN"@ == seq!['R', 'E', 'T', 'U', 'R', 'N'],
        "ASC"@ == seq!['A', 'S', 'C'],
        "DESC"@ == seq!['D', 'E', 'S', 'C'],
        "ORDER"@ == seq!['O', 'R', 'D', 'E', 'R'],
        "BY"@ == seq!['B', 'Y'],
        "LIMIT"@ == seq!['L', 'I', 'M', 'I', 'T'],
{
    reveal_strlit("true");
    reveal_strlit("false");
    reveal_strlit("=");
    reveal_strlit("<>");
    reveal_strlit("<");
    reveal_strlit("<=");
    reveal_strlit(">");
    reveal_strlit(">=");
    reveal_strlit(":");
    reveal_strlit(",");
    reveal_strlit("{");
    reveal_strlit("}");
    reveal_strlit("(");
    reveal_strlit(")");
    reveal_strlit("*");
    reveal_strlit("..");
    reveal_strlit(".");
    reveal_strlit("[");
    reveal_strlit("]");
    reveal_strlit("-");
    reveal_strlit("->");
    reveal_strlit("<-");
    reveal_strlit("NOT");
    reveal_strlit("EXISTS");
    reveal_strlit("MATCH");
    reveal_strlit("AND");
    reveal_strlit("WHERE");
    reveal_strlit("RETURN");
    reveal_strlit("ASC");
    reveal_strlit("DESC");
    reveal_strlit("ORDER");
    reveal_strlit("BY");
    reveal_strlit("LIMIT");
    assert("true"@ =~= seq!['t', 'r', 'u', 'e']);
    assert("false"@ =~= seq!['f', 'a', 'l', 's', 'e']);
}

/// A character that does not stand next is not there.
proof fn lemma_next(src: SourceView, pos: int, c: char)
    requires
        0 <= pos < src.chars.len(),
        layout::begins(c),
        head(src, pos) != Some(c),
    ensures
        src.chars[pos] != c,
{
}

proof fn lemma_no_digits(src: SourceView, pos: int)
    requires
        0 <= pos <= src.chars.len(),
        pos < src.chars.len() ==> !('0' <= src.chars[pos] && src.chars[pos] <= '9'),
    ensures
        text::digits_at(src.chars, pos) is None,
{
}

proof fn lemma_literal(src: SourceView, pos: int, l: LiteralView, style: Style, end: int)
    requires
        laid_out(src.chars, pos, seq![literal_token(l, style)], end),
        writable_literal(l),
        is_style(style),
        head(src, end) != Some('.'),
        0 <= pos <= src.chars.len(),
    ensures
        parser::literal_at(src, pos) == Some((l, end)),
        parser::property_ref_at(src, pos) is None,
        pos < end <= src.chars.len(),
        head(src, pos) != Some('>'),
        head(src, pos) != Some('='),
{
    lemma_words();
    let t = literal_token(l, style);
    match l {
        LiteralView::String(s) => {
            layout::lemma_quoted(src, pos, s, end);
            layout::lemma_no_name(src, pos);
        },
        LiteralView::Bool(b) => {
            let p = layout::lemma_token(src, pos, t, end);
            layout::lemma_no_quoted(src, pos);
            lemma_no_digits(src, p);
            assert(layout::is_name(t));
            layout::lemma_name(src, pos, t, end);
            layout::lemma_no_word(src, end, "."@);
            layout::lemma_word(src, pos, t, end);
            if !b {
                layout::lemma_no_word(src, pos, "true"@);
            }
        },
        LiteralView::Int64(n) => {
            let m: int = if n < 0 {
                -n
            } else {
                n as int
            };
            let digits = (style.digits)(m);
            assert(layout::writes(digits, m));
            assert('0' <= digits[0] && digits[0] <= '9');
            let p = layout::lemma_token(src, pos, t, end);
            let d = if n < 0 {
                p + 1
            } else {
                p
            };
            assert(src.chars.subrange(d, end) =~= digits) by {
                assert forall|i: int| 0 <= i < digits.len() implies src.chars.subrange(d, end)[i]
                    == digits[i] by {
                    assert(src.chars[p + (i + d - p)] == t[i + d - p]);
                }
            }
            assert(t.last() == digits[digits.len() - 1]);
            assert(layout::joins(t.last()));
            layout::lemma_digits_of_part(src.chars, d, end);
            layout::lemma_written_number(digits);
            layout::lemma_no_quoted(src, pos);
            layout::lemma_no_name(src, pos);
            if end < src.chars.len() {
                lemma_next(src, end, '.');
            }
        },
        LiteralView::FloatText(_) => {
            let d: int = if t.len() > 0 && t[0] == '-' {
                1
            } else {
                0
            };
            let k = choose|k: int|
                d < k < t.len() && #[trigger] t[k] == '.' && layout::is_digits(t.subrange(d, k))
                    && layout::is_digits(t.subrange(k + 1, t.len() as int));
            let whole = t.subrange(d, k);
            let part = t.subrange(k + 1, t.len() as int);
            assert('0' <= whole[0] && whole[0] <= '9');
            assert(t[d] == whole[0]);
            assert('0' <= part[part.len() - 1] && part[part.len() - 1] <= '9');
            assert(t.last() == part[part.len() - 1]);
            assert(layout::joins(t.last()));
            let p = layout::lemma_token(src, pos, t, end);
            assert(src.chars.subrange(p + d, p + k) =~= whole) by {
                assert forall|i: int| 0 <= i < whole.len() implies src.chars.subrange(
                    p + d,
                    p + k,
                )[i] == whole[i] by {
                    assert(src.chars[p + (d + i)] == t[d + i]);
                }
            }
            assert(src.chars.subrange(p + k + 1, end) =~= part) by {
                assert forall|i: int| 0 <= i < part.len() implies src.chars.subrange(
                    p + k + 1,
                    end,
                )[i] == part[i] by {
                    assert(src.chars[p + (k + 1 + i)] == t[k + 1 + i]);
                }
            }
            assert(src.chars[p + k] == '.');
            layout::lemma_digits_of_part(src.chars, p + d, p + k);
            layout::lemma_digits_of_part(src.chars, p + k + 1, end);
            layout::lemma_no_quoted(src, pos);
            layout::lemma_no_name(src, pos);
        },
        LiteralView::Float64(_) => {},
    }
}

proof fn lemma_op(src: SourceView, pos: int, op: ComparisonOp, end: int)
    requires
        laid_out(src.chars, pos, seq![op_token(op)], end),
        head(src, end) != Some('>'),
        head(src, end) != Some('='),
        0 <= pos <= src.chars.len(),
    ensures
        parser::op_at(src, pos) == Some((op, end)),
        pos < end <= src.chars.len(),
        head(src, pos) matches Some(c) && (c == '=' || c == '<' || c == '>'),
{
    lemma_words();
    let t = op_token(op);
    let p = layout::lemma_token(src, pos, t, end);
    layout::lemma_word(src, pos, t, end);
    if end < src.chars.len() {
        lemma_next(src, end, '>');
        lemma_next(src, end, '=');
    }
    if head(src, pos) != Some('<') {
        layout::lemma_no_word(src, pos, "<>"@);
        layout::lemma_no_word(src, pos, "<="@);
        layout::lemma_no_word(src, pos, "<"@);
    }
    if head(src, pos) != Some('>') {
        layout::lemma_no_word(src, pos, ">="@);
        layout::lemma_no_word(src, pos, ">"@);
    }
    if head(src, pos) != Some('=') {
        layout::lemma_no_word(src, pos, "="@);
    }
    if p + 2 <= src.chars.len() {
        assert(src.chars.subrange(p, p + 2)[1] == src.chars[p + 1]);
        if t.len() == 2 {
            assert(src.chars[p + 1] == t[1]);
        }
    }
}

proof fn lemma_ref(src: SourceView, pos: int, r: PropertyRefView, end: int)
    requires
        laid_out(src.chars, pos, ref_tokens(r), end),
        writable_ref(r),
        0 <= pos <= src.chars.len(),
    ensures
        parser::property_ref_at(src, pos) == Some((r, end)),
        pos < end <= src.chars.len(),
        head(src, pos) == Some(r.alias[0]),
{
    lemma_words();
    let a = layout::lemma_split(
        src.chars,
        pos,
        seq![r.alias],
        seq!["."@] + seq![r.property],
        end,
    );
    let b = layout::lemma_split(src.chars, a, seq!["."@], seq![r.property], end);
    layout::lemma_name(src, pos, r.alias, a);
    layout::lemma_word(src, a, "."@, b);
    layout::lemma_name(src, b, r.property, end);
}

proof fn lemma_kv(src: SourceView, pos: int, f: PropertyFilterView, style: Style, end: int)
    requires
        laid_out(src.chars, pos, kv_tokens(f, style), end),
        layout::is_name(f.property),
        f.op == ComparisonOp::Eq,
        writable_literal(f.value),
        is_style(style),
        head(src, end) != Some('.'),
        0 <= pos <= src.chars.len(),
    ensures
        parser::property_kv_at(src, pos) == Some((f, end)),
        pos < end <= src.chars.len(),
{
    lemma_words();
    let rest = seq![":"@] + seq![literal_token(f.value, style)];
    let a = layout::lemma_split(src.chars, pos, seq![f.property], rest, end);
    let b = layout::lemma_split(
        src.chars,
        a,
        seq![":"@],
        seq![literal_token(f.value, style)],
        end,
    );
    layout::lemma_name(src, pos, f.property, a);
    layout::lemma_word(src, a, ":"@, b);
    lemma_literal(src, b, f.value, style, end);
}

proof fn lemma_more_kvs(
    src: SourceView,
    pos: int,
    fs: Seq<PropertyFilterView>,
    style: Style,
    end: int,
)
    requires
        laid_out(src.chars, pos, more_kv_tokens(fs, style), end),
        writable_filters(fs),
        is_style(style),
        head(src, end) == Some('}'),
        0 <= pos <= src.chars.len(),
    ensures
        parser::more_property_kvs_at(src, pos) == (fs, end),
        pos <= end <= src.chars.len(),
        head(src, pos) != Some('.'),
    decreases fs.len(),
{
    lemma_words();
    if fs.len() == 0 {
        assert(fs =~= Seq::<PropertyFilterView>::empty());
        layout::lemma_no_word(src, pos, ","@);
    } else {
        let rest = fs.drop_first();
        assert forall|i: int| 0 <= i < rest.len() implies layout::is_name(
            (#[trigger] rest[i]).property,
        ) && rest[i].op == ComparisonOp::Eq && writable_literal(rest[i].value) by {
            assert(rest[i] == fs[i + 1]);
        }
        let a = layout::lemma_split(
            src.chars,
            pos,
            seq![","@],
            kv_tokens(fs[0], style) + more_kv_tokens(rest, style),
            end,
        );
        layout::lemma_word(src, pos, ","@, a);
        layout::lemma_head(src, pos, seq![","@], a);
        let b = layout::lemma_split(
            src.chars,
            a,
            kv_tokens(fs[0], style),
            more_kv_tokens(rest, style),
            end,
        );
        layout::lemma_within(src.chars, a, kv_tokens(fs[0], style), b);
        lemma_more_kvs(src, b, rest, style, end);
        lemma_kv(src, a, fs[0], style, b);
        assert(seq![fs[0]] + rest =~= fs);
    }
}

proof fn lemma_map(
    src: SourceView,
    pos: int,
    fs: Seq<PropertyFilterView>,
    style: Style,
    end: int,
)
    requires
        laid_out(src.chars, pos, map_tokens(fs, style), end),
        writable_filters(fs),
        is_style(style),
        fs.len() > 0,
        0 <= pos <= src.chars.len(),
    ensures
        parser::property_map_at(src, pos) == Some((fs, end)),
        pos < end <= src.chars.len(),
        head(src, pos) == Some('{'),
{
    lemma_words();
    let rest = fs.drop_first();
    assert forall|i: int| 0 <= i < rest.len() implies layout::is_name(
        (#[trigger] rest[i]).property,
    ) && rest[i].op == ComparisonOp::Eq && writable_literal(rest[i].value) by {
        assert(rest[i] == fs[i + 1]);
    }
    let kv = kv_tokens(fs[0], style);
    let more = more_kv_tokens(rest, style);
    let a = layout::lemma_split(src.chars, pos, seq!["{"@], kv + (more + seq!["}"@]), end);
    let b = layout::lemma_split(src.chars, a, kv, more + seq!["}"@], end);
    let c = layout::lemma_split(src.chars, b, more, seq!["}"@], end);
    layout::lemma_word(src, pos, "{"@, a);
    layout::lemma_head(src, pos, seq!["{"@], a);
    layout::lemma_word(src, c, "}"@, end);
    layout::lemma_head(src, c, seq!["}"@], end);
    layout::lemma_within(src.chars, a, kv, b);
    lemma_more_kvs(src, b, rest, style, c);
    lemma_kv(src, a, fs[0], style, b);
    assert(seq![fs[0]] + rest =~= fs);
}

proof fn lemma_suffix(src: SourceView, pos: int, name: Option<Seq<char>>, end: int)
    requires
        laid_out(src.chars, pos, suffix_tokens(name), end),
        writable_name(name),
        name is None ==> head(src, end) != Some(':'),
        0 <= pos <= src.chars.len(),
    ensures
        parser::type_suffix_at(src, pos) == (name, end),
        pos <= end <= src.chars.len(),
{
    lemma_words();
    match name {
        Some(n) => {
            let a = layout::lemma_split(src.chars, pos, seq![":"@], seq![n], end);
            layout::lemma_word(src, pos, ":"@, a);
            layout::lemma_name(src, a, n, end);
        },
        None => {
            layout::lemma_no_word(src, pos, ":"@);
        },
    }
}

proof fn lemma_node(src: SourceView, pos: int, n: NodePatternView, style: Style, end: int)
    requires
        laid_out(src.chars, pos, node_tokens(n, style), end),
        writable_node(n),
        is_style(style),
        0 <= pos <= src.chars.len(),
    ensures
        parser::node_pattern_at(src, pos) == Some((n, end)),
        pos < end <= src.chars.len(),
        head(src, pos) == Some('('),
{
    lemma_words();
    let map = map_tokens(n.property_filters, style);
    let suffix = suffix_tokens(n.label);
    let close = seq![")"@];
    let a = layout::lemma_split(
        src.chars,
        pos,
        seq!["("@],
        seq![n.alias] + (suffix + (map + close)),
        end,
    );
    let b = layout::lemma_split(src.chars, a, seq![n.alias], suffix + (map + close), end);
    let c = layout::lemma_split(src.chars, b, suffix, map + close, end);
    let d = layout::lemma_split(src.chars, c, map, close, end);
    layout::lemma_word(src, pos, "("@, a);
    layout::lemma_head(src, pos, seq!["("@], a);
    layout::lemma_name(src, a, n.alias, b);
    layout::lemma_within(src.chars, b, suffix, c);
    layout::lemma_within(src.chars, c, map, d);
    layout::lemma_word(src, d, ")"@, end);
    layout::lemma_head(src, d, close, end);
    if n.property_filters.len() > 0 {
        lemma_map(src, c, n.property_filters, style, d);
    } else {
        assert(n.property_filters =~= Seq::<PropertyFilterView>::empty());
        layout::lemma_no_word(src, c, "{"@);
    }
    lemma_suffix(src, b, n.label, c);
}

proof fn lemma_hops(src: SourceView, pos: int, hops: HopRange, style: Style, end: int)
    requires
        laid_out(src.chars, pos, hop_tokens(hops, style), end),
        is_style(style),
        head(src, end) == Some(']'),
        0 <= pos <= src.chars.len(),
    ensures
        hop_tokens(hops, style).len() > 0 ==> parser::hop_range_at(src, pos) == Some((hops, end)),
        hop_tokens(hops, style).len() == 0 ==> parser::hop_range_at(src, pos) is None && pos == end
            && hops.min == 1 && hops.max == 1,
        pos <= end <= src.chars.len(),
        head(src, pos) == Some('*') || head(src, pos) == Some(']'),
{
    lemma_words();
    if hop_tokens(hops, style).len() == 0 {
        layout::lemma_no_word(src, pos, "*"@);
    } else {
        let min = (style.digits)(hops.min as int);
        let max = (style.digits)(hops.max as int);
        let a = layout::lemma_split(
            src.chars,
            pos,
            seq!["*"@],
            seq![min] + (seq![".."@] + seq![max]),
            end,
        );
        let b = layout::lemma_split(src.chars, a, seq![min], seq![".."@] + seq![max], end);
        let c = layout::lemma_split(src.chars, b, seq![".."@], seq![max], end);
        layout::lemma_word(src, pos, "*"@, a);
        layout::lemma_head(src, pos, seq!["*"@], a);
        layout::lemma_number(src, a, min, hops.min as int, b, u32::MAX as int);
        layout::lemma_word(src, b, ".."@, c);
        layout::lemma_number(src, c, max, hops.max as int, end, u32::MAX as int);
    }
}

/// A range of hops reads as it is written: for all numbers `m` and `n` that fit
/// in 32 bits, digits that write them stand for the least and the greatest
/// number of hops.
pub proof fn law_written_ranges_read_back(
    source: Seq<char>,
    comments: bool,
    m: u32,
    n: u32,
    least: Seq<char>,
    greatest: Seq<char>,
    end: int,
)
    requires
        layout::writes(least, m as int),
        layout::writes(greatest, n as int),
        laid_out(source, 0, seq!["*"@, least, ".."@, greatest], end),
    ensures
        parser::hop_range_at(SourceView { chars: source, comments }, 0) == Some(
            (HopRange { min: m, max: n }, end),
        ),
{
    lemma_words();
    let src = SourceView { chars: source, comments };
    let all = seq!["*"@, least, ".."@, greatest];
    assert(all =~= seq!["*"@] + (seq![least] + (seq![".."@] + seq![greatest])));
    let a = layout::lemma_split(
        source,
        0,
        seq!["*"@],
        seq![least] + (seq![".."@] + seq![greatest]),
        end,
    );
    let b = layout::lemma_split(source, a, seq![least], seq![".."@] + seq![greatest], end);
    let c = layout::lemma_split(source, b, seq![".."@], seq![greatest], end);
    layout::lemma_word(src, 0, "*"@, a);
    layout::lemma_number(src, a, least, m as int, b, u32::MAX as int);
    layout::lemma_word(src, b, ".."@, c);
    layout::lemma_number(src, c, greatest, n as int, end, u32::MAX as int);
}

proof fn lemma_detail(src: SourceView, pos: int, e: EdgePatternView, style: Style, end: int)
    requires
        laid_out(src.chars, pos, detail_tokens(e, style), end),
        writable_edge(e),
        is_style(style),
        head(src, end) == Some('-'),
        0 <= pos <= src.chars.len(),
    ensures
        parser::optional_detail_at(src, pos) == (
            parser::EdgeDetailView { alias: e.alias, edge_type: e.edge_type, hops: e.hops },
            end,
        ),
        pos <= end <= src.chars.len(),
{
    lemma_words();
    if detail_tokens(e, style).len() == 0 {
        layout::lemma_no_word(src, pos, "["@);
    } else {
        let alias = alias_tokens(e.alias);
        let suffix = suffix_tokens(e.edge_type);
        let hops = hop_tokens(e.hops, style);
        let close = seq!["]"@];
        let a = layout::lemma_split(
            src.chars,
            pos,
            seq!["["@],
            alias + (suffix + (hops + close)),
            end,
        );
        let b = layout::lemma_split(src.chars, a, alias, suffix + (hops + close), end);
        let c = layout::lemma_split(src.chars, b, suffix, hops + close, end);
        let d = layout::lemma_split(src.chars, c, hops, close, end);
        layout::lemma_word(src, pos, "["@, a);
        layout::lemma_within(src.chars, a, alias, b);
        layout::lemma_within(src.chars, b, suffix, c);
        layout::lemma_within(src.chars, c, hops, d);
        layout::lemma_word(src, d, "]"@, end);
        layout::lemma_head(src, d, close, end);
        lemma_hops(src, c, e.hops, style, d);
        lemma_suffix(src, b, e.edge_type, c);
        match e.alias {
            Some(name) => {
                layout::lemma_name(src, a, name, b);
            },
            None => {
                if e.edge_type is Some {
                    layout::lemma_head(src, b, suffix, c);
                }
                layout::lemma_no_name(src, a);
            },
        }
    }
}

proof fn lemma_edge(src: SourceView, pos: int, e: EdgePatternView, style: Style, end: int)
    requires
        laid_out(src.chars, pos, edge_tokens(e, style), end),
        writable_edge(e),
        is_style(style),
        0 <= pos <= src.chars.len(),
    ensures
        parser::edge_pattern_at(src, pos) == Some((e, end)),
        pos < end <= src.chars.len(),
{
    lemma_words();
    let (open, close) = match e.direction {
        Direction::Outgoing => ("-"@, "->"@),
        Direction::Incoming => ("<-"@, "-"@),
    };
    let detail = detail_tokens(e, style);
    let a = layout::lemma_split(src.chars, pos, seq![open], detail + seq![close], end);
    let b = layout::lemma_split(src.chars, a, detail, seq![close], end);
    layout::lemma_word(src, pos, open, a);
    layout::lemma_head(src, pos, seq![open], a);
    layout::lemma_within(src.chars, a, detail, b);
    layout::lemma_word(src, b, close, end);
    layout::lemma_head(src, b, seq![close], end);
    lemma_detail(src, a, e, style, b);
    if e.direction == Direction::Incoming {
        layout::lemma_no_word(src, pos, "-"@);
    }
}

proof fn lemma_more_steps(
    src: SourceView,
    pos: int,
    steps: Seq<PatternStepView>,
    style: Style,
    end: int,
)
    requires
        laid_out(src.chars, pos, more_step_tokens(steps, style), end),
        writable_steps(steps),
        is_style(style),
        head(src, end) != Some('-'),
        head(src, end) != Some('<'),
        0 <= pos <= src.chars.len(),
    ensures
        parser::more_steps_at(src, pos) == (steps, end),
        pos <= end <= src.chars.len(),
    decreases steps.len(),
{
    lemma_words();
    if steps.len() == 0 {
        assert(steps =~= Seq::<PatternStepView>::empty());
        layout::lemma_no_word(src, pos, "-"@);
        layout::lemma_no_word(src, pos, "<-"@);
    } else {
        let e = steps[0]->Edge_0;
        let n = steps[1]->Node_0;
        let rest = steps.skip(2);
        let (x, y, z) = (
            edge_tokens(e, style),
            node_tokens(n, style),
            more_step_tokens(rest, style),
        );
        let a = layout::lemma_split(src.chars, pos, x, y + z, end);
        let b = layout::lemma_split(src.chars, a, y, z, end);
        layout::lemma_within(src.chars, pos, x, a);
        layout::lemma_within(src.chars, a, y, b);
        lemma_edge(src, pos, e, style, a);
        lemma_node(src, a, n, style, b);
        lemma_more_steps(src, b, rest, style, end);
        assert(seq![PatternStepView::Edge(e), PatternStepView::Node(n)] + rest =~= steps);
    }
}

proof fn lemma_pattern(src: SourceView, pos: int, p: PatternView, style: Style, end: int)
    requires
        laid_out(src.chars, pos, pattern_tokens(p, style), end),
        writable_pattern(p),
        is_style(style),
        head(src, end) != Some('-'),
        head(src, end) != Some('<'),
        0 <= pos <= src.chars.len(),
    ensures
        parser::pattern_at(src, pos) == Some((p, end)),
        pos < end <= src.chars.len(),
{
    let n = p.steps[0]->Node_0;
    let rest = p.steps.drop_first();
    let (x, y) = (node_tokens(n, style), more_step_tokens(rest, style));
    let a = layout::lemma_split(src.chars, pos, x, y, end);
    layout::lemma_within(src.chars, pos, x, a);
    lemma_node(src, pos, n, style, a);
    lemma_more_steps(src, a, rest, style, end);
    assert(seq![PatternStepView::Node(n)] + rest =~= p.steps);
}

/// A word that is read where a name stands ends inside the name.
proof fn lemma_word_inside(src: SourceView, q: int, end: int, w: Seq<char>)
    requires
        0 <= q <= end <= src.chars.len(),
        forall|k: int| q <= k < end ==> layout::joins(#[trigger] src.chars[k]),
        end < src.chars.len() ==> !layout::joins(src.chars[end]),
        head(src, end) matches Some(c) ==> !layout::joins(c),
        w.len() > 0,
        forall|k: int| 0 <= k < w.len() ==> layout::joins(#[trigger] w[k]),
    ensures
        text::word_at(src, q, w) matches Some(e) ==> q < e <= end,
{
    if let Some(e) = text::word_at(src, q, w) {
        let p = text::skip_blank(src, q);
        text::lemma_skip_blank(src, q);
        assert(src.chars.subrange(p, p + w.len())[0] == src.chars[p]);
        assert(layout::joins(w[0]));
        if q == end {
            assert(head(src, end) == Some(w[0]));
        } else {
            assert(layout::joins(src.chars[q]));
            assert(p == q);
            if e > end {
                assert(src.chars.subrange(p, p + w.len())[end - p] == src.chars[end]);
                assert(layout::joins(w[end - p]));
            }
        }
    }
}

/// A condition that begins with a name is no `NOT EXISTS`.
proof fn lemma_no_not_exists(src: SourceView, pos: int, name: Seq<char>, end: int)
    requires
        laid_out(src.chars, pos, seq![name], end),
        layout::is_name(name),
        head(src, end) matches Some(c) && !layout::joins(c) && c != '{',
        0 <= pos <= src.chars.len(),
    ensures
        parser::not_exists_at(src, pos) is None,
{
    lemma_words();
    assert(layout::joins(name[0]));
    let p = layout::lemma_token(src, pos, name, end);
    assert forall|k: int| p <= k < end implies layout::joins(#[trigger] src.chars[k]) by {
        assert(src.chars[p + (k - p)] == name[k - p]);
    }
    assert(layout::joins(name.last()));
    if let Some(a) = text::word_at(src, pos, "NOT"@) {
        assert(text::skip_blank(src, p) == p);
        assert(text::word_at(src, p, "NOT"@) == Some(a));
        lemma_word_inside(src, p, end, "NOT"@);
        if let Some(b) = text::word_at(src, a, "EXISTS"@) {
            lemma_word_inside(src, a, end, "EXISTS"@);
            if b < end {
                assert(layout::joins(src.chars[b]));
                assert(head(src, b) == Some(src.chars[b]));
            }
            layout::lemma_no_word(src, b, "{"@);
        }
    }
}

/// Whether a character can stand behind a condition.
spec fn closes(c: char) -> bool {
    c == 'A' || c == 'R' || c == '}'
}

proof fn lemma_clause_words()
    ensures
        "MATCH"@.len() > 0 && "MATCH"@[0] == 'M',
        "WHERE"@.len() > 0 && "WHERE"@[0] == 'W',
        "RETURN"@.len() > 0 && "RETURN"@[0] == 'R',
        "ORDER"@.len() > 0 && "ORDER"@[0] == 'O',
        "LIMIT"@.len() > 0 && "LIMIT"@[0] == 'L',
        "NOT"@.len() > 0 && "NOT"@[0] == 'N',
        "EXISTS"@.len() > 0 && "EXISTS"@[0] == 'E',
        "{"@.len() > 0 && "{"@[0] == '{',
        "}"@.len() > 0 && "}"@[0] == '}',
        "."@.len() > 0 && "."@[0] == '.',
{
    lemma_words();
}

/// A condition that begins with a reference to a property is no `NOT EXISTS`.
proof fn lemma_ref_is_no_not_exists(src: SourceView, pos: int, r: PropertyRefView, end: int)
    requires
        laid_out(src.chars, pos, ref_tokens(r), end),
        writable_ref(r),
        0 <= pos <= src.chars.len(),
    ensures
        parser::not_exists_at(src, pos) is None,
{
    lemma_clause_words();
    let rest = seq!["."@] + seq![r.property];
    let m = layout::lemma_split(src.chars, pos, seq![r.alias], rest, end);
    layout::lemma_within(src.chars, pos, seq![r.alias], m);
    layout::lemma_head(src, m, rest, end);
    lemma_no_not_exists(src, pos, r.alias, m);
}

proof fn lemma_property(
    src: SourceView,
    pos: int,
    alias: Seq<char>,
    f: PropertyFilterView,
    style: Style,
    end: int,
)
    requires
        laid_out(
            src.chars,
            pos,
            condition_tokens(WhereConditionView::Property(alias, f), style),
            end,
        ),
        writable_condition(WhereConditionView::Property(alias, f)),
        is_style(style),
        head(src, end) matches Some(h) && closes(h),
        0 <= pos <= src.chars.len(),
    ensures
        parser::where_condition_at(src, pos) == Some((WhereConditionView::Property(alias, f), end)),
        pos < end <= src.chars.len(),
{
    let r = PropertyRefView { alias, property: f.property };
    let op = seq![op_token(f.op)];
    let value = seq![literal_token(f.value, style)];
    let a = layout::lemma_split(src.chars, pos, ref_tokens(r), op + value, end);
    let b = layout::lemma_split(src.chars, a, op, value, end);
    lemma_ref(src, pos, r, a);
    layout::lemma_within(src.chars, a, op, b);
    lemma_literal(src, b, f.value, style, end);
    lemma_op(src, a, f.op, b);
    lemma_ref_is_no_not_exists(src, pos, r, a);
}

proof fn lemma_property_comparison(
    src: SourceView,
    pos: int,
    left: PropertyRefView,
    op: ComparisonOp,
    right: PropertyRefView,
    style: Style,
    end: int,
)
    requires
        laid_out(
            src.chars,
            pos,
            condition_tokens(WhereConditionView::PropertyComparison { left, op, right }, style),
            end,
        ),
        writable_condition(WhereConditionView::PropertyComparison { left, op, right }),
        0 <= pos <= src.chars.len(),
    ensures
        parser::where_condition_at(src, pos) == Some(
            (WhereConditionView::PropertyComparison { left, op, right }, end),
        ),
        pos < end <= src.chars.len(),
{
    let o = seq![op_token(op)];
    let a = layout::lemma_split(src.chars, pos, ref_tokens(left), o + ref_tokens(right), end);
    let b = layout::lemma_split(src.chars, a, o, ref_tokens(right), end);
    lemma_ref(src, pos, left, a);
    layout::lemma_within(src.chars, a, o, b);
    lemma_ref(src, b, right, end);
    assert(layout::joins(right.alias[0]));
    lemma_op(src, a, op, b);
    lemma_ref_is_no_not_exists(src, pos, left, a);
}

proof fn lemma_alias_comparison(
    src: SourceView,
    pos: int,
    left: Seq<char>,
    op: ComparisonOp,
    right: Seq<char>,
    style: Style,
    end: int,
)
    requires
        laid_out(
            src.chars,
            pos,
            condition_tokens(WhereConditionView::AliasComparison { left, op, right }, style),
            end,
        ),
        writable_condition(WhereConditionView::AliasComparison { left, op, right }),
        0 <= pos <= src.chars.len(),
    ensures
        parser::where_condition_at(src, pos) == Some(
            (WhereConditionView::AliasComparison { left, op, right }, end),
        ),
        pos < end <= src.chars.len(),
{
    lemma_clause_words();
    let o = seq![op_token(op)];
    let a = layout::lemma_split(src.chars, pos, seq![left], o + seq![right], end);
    let b = layout::lemma_split(src.chars, a, o, seq![right], end);
    layout::lemma_name(src, pos, left, a);
    layout::lemma_within(src.chars, a, o, b);
    layout::lemma_name(src, b, right, end);
    assert(layout::joins(right[0]));
    lemma_op(src, a, op, b);
    lemma_no_not_exists(src, pos, left, a);
    layout::lemma_no_word(src, a, "."@);
}

/// What stands before the pattern of a `NOT EXISTS`.
proof fn lemma_not_exists_head(
    src: SourceView,
    pos: int,
    rest: Seq<Seq<char>>,
    end: int,
) -> (p: int)
    requires
        laid_out(
            src.chars,
            pos,
            seq!["NOT"@] + (seq!["EXISTS"@] + (seq!["{"@] + (seq!["MATCH"@] + rest))),
            end,
        ),
        0 <= pos <= src.chars.len(),
    ensures
        laid_out(src.chars, p, rest, end),
        pos < p <= src.chars.len(),
        parser::not_exists_head_at(src, pos) == parser::pattern_at(src, p),
{
    lemma_clause_words();
    let t3 = seq!["MATCH"@] + rest;
    let t2 = seq!["{"@] + t3;
    let t1 = seq!["EXISTS"@] + t2;
    let a = layout::lemma_split(src.chars, pos, seq!["NOT"@], t1, end);
    let b = layout::lemma_split(src.chars, a, seq!["EXISTS"@], t2, end);
    let d = layout::lemma_split(src.chars, b, seq!["{"@], t3, end);
    let e = layout::lemma_split(src.chars, d, seq!["MATCH"@], rest, end);
    layout::lemma_word(src, pos, "NOT"@, a);
    layout::lemma_word(src, a, "EXISTS"@, b);
    layout::lemma_word(src, b, "{"@, d);
    layout::lemma_word(src, d, "MATCH"@, e);
    e
}

proof fn lemma_condition(src: SourceView, pos: int, c: WhereConditionView, style: Style, end: int)
    requires
        laid_out(src.chars, pos, condition_tokens(c, style), end),
        writable_condition(c),
        is_style(style),
        head(src, end) matches Some(h) && closes(h),
        0 <= pos <= src.chars.len(),
    ensures
        parser::where_condition_at(src, pos) == Some((c, end)),
        pos < end <= src.chars.len(),
    decreases c,
{
    match c {
        WhereConditionView::Property(alias, f) => {
            lemma_property(src, pos, alias, f, style, end);
        },
        WhereConditionView::PropertyComparison { left, op, right } => {
            lemma_property_comparison(src, pos, left, op, right, style, end);
        },
        WhereConditionView::AliasComparison { left, op, right } => {
            lemma_alias_comparison(src, pos, left, op, right, style, end);
        },
        WhereConditionView::NotExists(sub) => {
            lemma_clause_words();
            let pattern = pattern_tokens(sub.pattern, style);
            let conditions = where_tokens(sub.where_conditions, style);
            let close = seq!["}"@];
            let e = lemma_not_exists_head(src, pos, pattern + (conditions + close), end);
            let f = layout::lemma_split(src.chars, e, pattern, conditions + close, end);
            let g = layout::lemma_split(src.chars, f, conditions, close, end);
            layout::lemma_within(src.chars, e, pattern, f);
            layout::lemma_within(src.chars, f, conditions, g);
            layout::lemma_word(src, g, "}"@, end);
            layout::lemma_head(src, g, close, end);
            if sub.where_conditions.len() > 0 {
                assert(conditions[0] == "WHERE"@);
                layout::lemma_head(src, f, conditions, g);
            }
            lemma_pattern(src, e, sub.pattern, style, f);
            lemma_where(src, f, sub.where_conditions, style, g);
        },
    }
}

proof fn lemma_more_conditions(
    src: SourceView,
    pos: int,
    cs: Seq<WhereConditionView>,
    style: Style,
    end: int,
)
    requires
        laid_out(src.chars, pos, more_condition_tokens(cs, style), end),
        writable_conditions(cs),
        is_style(style),
        head(src, end) == Some('R') || head(src, end) == Some('}'),
        0 <= pos <= src.chars.len(),
    ensures
        parser::more_conditions_at(src, pos) == (cs, end),
        pos <= end <= src.chars.len(),
        head(src, pos) matches Some(h) && closes(h),
    decreases cs,
{
    lemma_words();
    if cs.len() == 0 {
        assert(cs =~= Seq::<WhereConditionView>::empty());
        layout::lemma_no_word(src, pos, "AND"@);
    } else {
        let rest = cs.drop_first();
        let (x, y) = (condition_tokens(cs[0], style), more_condition_tokens(rest, style));
        let a = layout::lemma_split(src.chars, pos, seq!["AND"@], x + y, end);
        let b = layout::lemma_split(src.chars, a, x, y, end);
        layout::lemma_word(src, pos, "AND"@, a);
        layout::lemma_head(src, pos, seq!["AND"@], a);
        layout::lemma_within(src.chars, a, x, b);
        lemma_more_conditions(src, b, rest, style, end);
        lemma_condition(src, a, cs[0], style, b);
        assert(seq![cs[0]] + rest =~= cs);
    }
}

proof fn lemma_where(
    src: SourceView,
    pos: int,
    cs: Seq<WhereConditionView>,
    style: Style,
    end: int,
)
    requires
        laid_out(src.chars, pos, where_tokens(cs, style), end),
        writable_conditions(cs),
        is_style(style),
        head(src, end) == Some('R') || head(src, end) == Some('}'),
        0 <= pos <= src.chars.len(),
    ensures
        cs.len() > 0 ==> parser::where_clause_at(src, pos) == Some((cs, end)),
        cs.len() == 0 ==> parser::where_clause_at(src, pos) is None && pos == end && cs
            == Seq::<WhereConditionView>::empty(),
        pos <= end <= src.chars.len(),
    decreases cs,
{
    lemma_words();
    if cs.len() == 0 {
        assert(cs =~= Seq::<WhereConditionView>::empty());
        layout::lemma_no_word(src, pos, "WHERE"@);
    } else {
        let rest = cs.drop_first();
        let (x, y) = (condition_tokens(cs[0], style), more_condition_tokens(rest, style));
        let a = layout::lemma_split(src.chars, pos, seq!["WHERE"@], x + y, end);
        let b = layout::lemma_split(src.chars, a, x, y, end);
        layout::lemma_word(src, pos, "WHERE"@, a);
        layout::lemma_within(src.chars, a, x, b);
        lemma_more_conditions(src, b, rest, style, end);
        lemma_condition(src, a, cs[0], style, b);
        assert(seq![cs[0]] + rest =~= cs);
    }
}

proof fn lemma_item(src: SourceView, pos: int, item: ReturnItemView, end: int)
    requires
        laid_out(src.chars, pos, item_tokens(item), end),
        layout::is_name(item.alias),
        writable_name(item.property),
        head(src, end) != Some('.'),
        0 <= pos <= src.chars.len(),
    ensures
        parser::return_item_at(src, pos) == Some((item, end)),
        pos < end <= src.chars.len(),
{
    lemma_words();
    match item.property {
        Some(property) => {
            lemma_ref(src, pos, PropertyRefView { alias: item.alias, property }, end);
        },
        None => {
            layout::lemma_name(src, pos, item.alias, end);
            layout::lemma_no_word(src, end, "."@);
        },
    }
}

proof fn lemma_more_items(src: SourceView, pos: int, items: Seq<ReturnItemView>, end: int)
    requires
        laid_out(src.chars, pos, more_item_tokens(items), end),
        writable_items(items),
        head(src, end) != Some(','),
        head(src, end) != Some('.'),
        0 <= pos <= src.chars.len(),
    ensures
        parser::more_return_items_at(src, pos) == (items, end),
        pos <= end <= src.chars.len(),
        head(src, pos) != Some('.'),
    decreases items.len(),
{
    lemma_words();
    if items.len() == 0 {
        assert(items =~= Seq::<ReturnItemView>::empty());
        layout::lemma_no_word(src, pos, ","@);
    } else {
        let rest = items.drop_first();
        assert forall|i: int| 0 <= i < rest.len() implies layout::is_name(
            (#[trigger] rest[i]).alias,
        ) && writable_name(rest[i].property) by {
            assert(rest[i] == items[i + 1]);
        }
        let (x, y) = (item_tokens(items[0]), more_item_tokens(rest));
        let a = layout::lemma_split(src.chars, pos, seq![","@], x + y, end);
        let b = layout::lemma_split(src.chars, a, x, y, end);
        layout::lemma_word(src, pos, ","@, a);
        layout::lemma_head(src, pos, seq![","@], a);
        layout::lemma_within(src.chars, a, x, b);
        lemma_more_items(src, b, rest, end);
        lemma_item(src, a, items[0], b);
        assert(seq![items[0]] + rest =~= items);
    }
}

proof fn lemma_returns(src: SourceView, pos: int, items: Seq<ReturnItemView>, end: int)
    requires
        laid_out(src.chars, pos, return_tokens(items), end),
        items.len() > 0,
        writable_items(items),
        head(src, end) != Some(','),
        head(src, end) != Some('.'),
        0 <= pos <= src.chars.len(),
    ensures
        parser::return_clause_at(src, pos) == Some((items, end)),
        pos < end <= src.chars.len(),
{
    lemma_words();
    let rest = items.drop_first();
    assert forall|i: int| 0 <= i < rest.len() implies layout::is_name((#[trigger] rest[i]).alias)
        && writable_name(rest[i].property) by {
        assert(rest[i] == items[i + 1]);
    }
    let (x, y) = (item_tokens(items[0]), more_item_tokens(rest));
    let a = layout::lemma_split(src.chars, pos, seq!["RETURN"@], x + y, end);
    let b = layout::lemma_split(src.chars, a, x, y, end);
    layout::lemma_word(src, pos, "RETURN"@, a);
    layout::lemma_within(src.chars, a, x, b);
    lemma_more_items(src, b, rest, end);
    lemma_item(src, a, items[0], b);
    assert(seq![items[0]] + rest =~= items);
}

proof fn lemma_order(src: SourceView, pos: int, o: Option<OrderByView>, style: Style, end: int)
    requires
        laid_out(src.chars, pos, order_tokens(o, style), end),
        o matches Some(o) ==> layout::is_name(o.alias) && layout::is_name(o.property),
        head(src, end) is None || head(src, end) == Some('L'),
        0 <= pos <= src.chars.len(),
    ensures
        o matches Some(x) ==> parser::order_by_at(src, pos) == Some((x, end)),
        o is None ==> parser::order_by_at(src, pos) is None && pos == end,
        pos <= end <= src.chars.len(),
{
    lemma_words();
    match o {
        None => {
            layout::lemma_no_word(src, pos, "ORDER"@);
        },
        Some(o) => {
            let r = PropertyRefView { alias: o.alias, property: o.property };
            let (x, y) = (ref_tokens(r), direction_tokens(o.direction, style));
            let a = layout::lemma_split(
                src.chars,
                pos,
                seq!["ORDER"@],
                seq!["BY"@] + (x + y),
                end,
            );
            let b = layout::lemma_split(src.chars, a, seq!["BY"@], x + y, end);
            let c = layout::lemma_split(src.chars, b, x, y, end);
            layout::lemma_word(src, pos, "ORDER"@, a);
            layout::lemma_word(src, a, "BY"@, b);
            lemma_ref(src, b, r, c);
            layout::lemma_within(src.chars, c, y, end);
            match o.direction {
                SortDirection::Asc => {
                    if style.ascending {
                        layout::lemma_word(src, c, "ASC"@, end);
                    } else {
                        layout::lemma_no_word(src, c, "ASC"@);
                        layout::lemma_no_word(src, c, "DESC"@);
                    }
                },
                SortDirection::Desc => {
                    layout::lemma_head(src, c, y, end);
                    layout::lemma_no_word(src, c, "ASC"@);
                    layout::lemma_word(src, c, "DESC"@, end);
                },
            }
        },
    }
}

proof fn lemma_limit(src: SourceView, pos: int, limit: Option<u64>, style: Style, end: int)
    requires
        laid_out(src.chars, pos, limit_tokens(limit, style), end),
        is_style(style),
        head(src, end) is None,
        0 <= pos <= src.chars.len(),
    ensures
        limit matches Some(n) ==> parser::limit_at(src, pos) == Some((n, end)),
        limit is None ==> parser::limit_at(src, pos) is None && pos == end,
        pos <= end <= src.chars.len(),
        head(src, pos) is None || head(src, pos) == Some('L'),
{
    lemma_words();
    match limit {
        None => {
            layout::lemma_no_word(src, pos, "LIMIT"@);
        },
        Some(n) => {
            let digits = (style.digits)(n as int);
            let a = layout::lemma_split(src.chars, pos, seq!["LIMIT"@], seq![digits], end);
            layout::lemma_word(src, pos, "LIMIT"@, a);
            layout::lemma_head(src, pos, seq!["LIMIT"@], a);
            layout::lemma_number(src, a, digits, n as int, end, u64::MAX as int);
        },
    }
}

/// What is written of a query reads as that query: whatever its patterns,
/// conditions, ranges of hops, results, order and limit are, and whatever blank
/// space stands between its tokens.
#[verifier::rlimit(60)]
pub proof fn law_written_queries_read_back(source: Seq<char>, q: QueryView, style: Style)
    requires
        writable(q),
        is_style(style),
        layout::is_layout(source, query_tokens(q, style)),
    ensures
        parser::query_of(source) == Ok::<QueryView, (int, Seq<char>)>(q),
{
    lemma_clause_words();
    let src = SourceView { chars: source, comments: false };
    let end = choose|end: int| #[trigger]
        laid_out(source, 0, query_tokens(q, style), end) && end <= source.len() && forall|k: int|
            end <= k < source.len() ==> (#[trigger] source[k] == ' ' || source[k] == '\t'
                || source[k] == '\r' || source[k] == '\n');
    let pattern = pattern_tokens(q.pattern, style);
    let conditions = where_tokens(q.where_conditions, style);
    let items = return_tokens(q.returns);
    let order = order_tokens(q.order_by, style);
    let limit = limit_tokens(q.limit, style);
    let t4 = order + limit;
    let t3 = items + t4;
    let t2 = conditions + t3;
    let t1 = pattern + t2;
    let a = layout::lemma_split(source, 0, seq!["MATCH"@], t1, end);
    let b = layout::lemma_split(source, a, pattern, t2, end);
    let c = layout::lemma_split(source, b, conditions, t3, end);
    let d = layout::lemma_split(source, c, items, t4, end);
    let e = layout::lemma_split(source, d, order, limit, end);
    layout::lemma_word(src, 0, "MATCH"@, a);
    layout::lemma_within(source, a, pattern, b);
    layout::lemma_within(source, b, conditions, c);
    layout::lemma_within(source, c, items, d);
    layout::lemma_within(source, d, order, e);
    layout::lemma_within(source, e, limit, end);
    layout::lemma_rest_is_blank(src, end);
    lemma_limit(src, e, q.limit, style, end);
    lemma_order(src, d, q.order_by, style, e);
    if q.order_by is Some {
        layout::lemma_head(src, d, order, e);
    }
    lemma_returns(src, c, q.returns, d);
    layout::lemma_head(src, c, items, d);
    lemma_where(src, b, q.where_conditions, style, c);
    if q.where_conditions.len() > 0 {
        layout::lemma_head(src, b, conditions, c);
    }
    lemma_pattern(src, a, q.pattern, style, b);
    if q.where_conditions.len() == 0 {
        assert(q.where_conditions =~= Seq::<WhereConditionView>::empty());
    }
}

} // verus!
