//! What the text of a query looks like, said part by part, and that nothing
//! else is read: where a text reads as a query, that query is what the text
//! writes.
use crate::dsl::parser;
use crate::dsl::writing;
use crate::dsl::{
    ComparisonOp, Direction, EdgePatternView, ExistsSubqueryView, HopRange, LiteralView,
    NodePatternView, OrderByView, PatternStepView, PatternView, PropertyFilterView,
    PropertyRefView, QueryView, ReturnItemView, SortDirection, WhereConditionView,
};
use crate::layout;
use crate::layout::{gap, mark, name, number};
use crate::text;
use crate::text::SourceView;
use vstd::prelude::*;

verus! {

/// Whether a text writes a whole number: digits, with a sign before them
/// where it is below zero.
pub open spec fn writes_whole(t: Seq<char>, n: int) -> bool {
    layout::writes(t, n) || (t.len() > 1 && t[0] == '-' && layout::writes(t.drop_first(), -n))
}

/// A text in quotation marks, a number or a truth value.
pub open spec fn literal(src: SourceView, i: int, j: int, l: LiteralView) -> bool {
    match l {
        LiteralView::String(v) => layout::is_quotable(v) && mark(src, i, j, layout::quoted(v)),
        LiteralView::FloatText(t) => writing::is_fraction(t) && mark(src, i, j, t),
        LiteralView::Int64(n) => exists|t: Seq<char>| #[trigger]
            mark(src, i, j, t) && writes_whole(t, n as int),
        LiteralView::Bool(b) => mark(
            src,
            i,
            j,
            if b {
                "true"@
            } else {
                "false"@
            },
        ),
        LiteralView::Float64(_) => false,
    }
}

/// `name: literal`.
pub open spec fn pair(src: SourceView, i: int, j: int, f: PropertyFilterView) -> bool {
    f.op == ComparisonOp::Eq && exists|a: int, b: int| #[trigger]
        name(src, i, a, f.property) && #[trigger] mark(src, a, b, ":"@) && literal(
            src,
            b,
            j,
            f.value,
        )
}

/// `, name: literal` each time.
pub open spec fn more_pairs(src: SourceView, i: int, j: int, fs: Seq<PropertyFilterView>) -> bool
    decreases fs.len(),
{
    if fs.len() == 0 {
        i == j
    } else {
        exists|a: int, b: int| #[trigger]
            mark(src, i, a, ","@) && #[trigger] pair(src, a, b, fs[0]) && more_pairs(
                src,
                b,
                j,
                fs.drop_first(),
            )
    }
}

/// `{name: literal, ..}` with one pair at least, or nothing.
pub open spec fn pairs(src: SourceView, i: int, j: int, fs: Seq<PropertyFilterView>) -> bool {
    if fs.len() == 0 {
        i == j
    } else {
        exists|a: int, b: int, c: int| #[trigger]
            mark(src, i, a, "{"@) && #[trigger] pair(src, a, b, fs[0]) && more_pairs(
                src,
                b,
                c,
                fs.drop_first(),
            ) && #[trigger] mark(src, c, j, "}"@)
    }
}

/// `:name`, or nothing.
pub open spec fn suffix(src: SourceView, i: int, j: int, n: Option<Seq<char>>) -> bool {
    match n {
        None => i == j,
        Some(n) => exists|a: int| #[trigger] mark(src, i, a, ":"@) && name(src, a, j, n),
    }
}

/// `(alias:Label {..})`.
pub open spec fn node(src: SourceView, i: int, j: int, n: NodePatternView) -> bool {
    exists|a: int, b: int, c: int, d: int| #[trigger]
        mark(src, i, a, "("@) && #[trigger] name(src, a, b, n.alias) && #[trigger] suffix(
            src,
            b,
            c,
            n.label,
        ) && pairs(src, c, d, n.property_filters) && #[trigger] mark(src, d, j, ")"@)
}

/// `*min..max`, or nothing for one hop.
pub open spec fn range(src: SourceView, i: int, j: int, hops: HopRange) -> bool {
    ||| i == j && hops.min == 1 && hops.max == 1
    ||| exists|a: int, b: int, c: int| #[trigger]
        mark(src, i, a, "*"@) && #[trigger] number(src, a, b, hops.min as int) && #[trigger] mark(
            src,
            b,
            c,
            ".."@,
        ) && number(src, c, j, hops.max as int)
}

/// A name, or nothing.
pub open spec fn optional_name(src: SourceView, i: int, j: int, n: Option<Seq<char>>) -> bool {
    match n {
        None => i == j,
        Some(n) => name(src, i, j, n),
    }
}

/// `[alias:TYPE*min..max]`, or nothing for any edge.
pub open spec fn detail(
    src: SourceView,
    i: int,
    j: int,
    alias: Option<Seq<char>>,
    edge_type: Option<Seq<char>>,
    hops: HopRange,
) -> bool {
    ||| i == j && alias is None && edge_type is None && hops.min == 1 && hops.max == 1
    ||| exists|a: int, b: int, c: int, d: int| #[trigger]
        mark(src, i, a, "["@) && #[trigger] optional_name(src, a, b, alias) && #[trigger] suffix(
            src,
            b,
            c,
            edge_type,
        ) && range(src, c, d, hops) && #[trigger] mark(src, d, j, "]"@)
}

/// An edge between two marks.
pub open spec fn arrow(
    src: SourceView,
    i: int,
    j: int,
    before: Seq<char>,
    e: EdgePatternView,
    after: Seq<char>,
) -> bool {
    exists|a: int, b: int| #[trigger]
        mark(src, i, a, before) && detail(src, a, b, e.alias, e.edge_type, e.hops)
            && #[trigger] mark(src, b, j, after)
}

/// `-[..]->` from the node before, `<-[..]-` to it.
pub open spec fn edge(src: SourceView, i: int, j: int, e: EdgePatternView) -> bool {
    match e.direction {
        Direction::Outgoing => arrow(src, i, j, "-"@, e, "->"@),
        Direction::Incoming => arrow(src, i, j, "<-"@, e, "-"@),
    }
}

/// An edge and a node each time.
pub open spec fn more_steps(src: SourceView, i: int, j: int, steps: Seq<PatternStepView>) -> bool
    decreases steps.len(),
{
    if steps.len() == 0 {
        i == j
    } else {
        steps.len() >= 2 && exists|e: EdgePatternView, n: NodePatternView, a: int, b: int|
            steps[0] == PatternStepView::Edge(e) && steps[1] == PatternStepView::Node(n)
                && #[trigger] edge(src, i, a, e) && #[trigger] node(src, a, b, n) && more_steps(
                src,
                b,
                j,
                steps.skip(2),
            )
    }
}

/// A node, and an edge and a node each time after it.
pub open spec fn pattern(src: SourceView, i: int, j: int, p: PatternView) -> bool {
    p.steps.len() > 0 && exists|n: NodePatternView, a: int|
        p.steps[0] == PatternStepView::Node(n) && #[trigger] node(src, i, a, n) && more_steps(
            src,
            a,
            j,
            p.steps.drop_first(),
        )
}

/// `alias.property`.
pub open spec fn reference(
    src: SourceView,
    i: int,
    j: int,
    alias: Seq<char>,
    property: Seq<char>,
) -> bool {
    exists|a: int, b: int| #[trigger]
        name(src, i, a, alias) && #[trigger] mark(src, a, b, "."@) && name(src, b, j, property)
}

/// One condition: a property and a value, two aliases, two properties, or a
/// pattern that is not there.
pub open spec fn condition(src: SourceView, i: int, j: int, c: WhereConditionView) -> bool
    decreases c,
{
    match c {
        WhereConditionView::Property(alias, f) => exists|a: int, b: int| #[trigger]
            reference(src, i, a, alias, f.property) && #[trigger] mark(
                src,
                a,
                b,
                writing::op_token(f.op),
            ) && literal(src, b, j, f.value),
        WhereConditionView::AliasComparison { left, op, right } => exists|a: int, b: int| #[trigger]
            name(src, i, a, left) && #[trigger] mark(src, a, b, writing::op_token(op)) && name(
                src,
                b,
                j,
                right,
            ),
        WhereConditionView::PropertyComparison { left, op, right } => exists|a: int, b: int|
            #[trigger]
            reference(src, i, a, left.alias, left.property) && #[trigger] mark(
                src,
                a,
                b,
                writing::op_token(op),
            ) && reference(src, b, j, right.alias, right.property),
        WhereConditionView::NotExists(sub) => exists|a: int, b: int| #[trigger]
            not_exists_head(src, i, a, sub.pattern) && conditions(
                src,
                a,
                b,
                sub.where_conditions,
            ) && #[trigger] mark(src, b, j, "}"@),
    }
}

/// `NOT EXISTS { MATCH pattern`.
pub open spec fn not_exists_head(src: SourceView, i: int, j: int, p: PatternView) -> bool {
    exists|a: int, b: int, c: int, d: int| #[trigger]
        mark(src, i, a, "NOT"@) && #[trigger] mark(src, a, b, "EXISTS"@) && #[trigger] mark(
            src,
            b,
            c,
            "{"@,
        ) && #[trigger] mark(src, c, d, "MATCH"@) && pattern(src, d, j, p)
}

/// That a position is one of the text.
pub open spec fn within(src: SourceView, i: int) -> bool {
    0 <= i <= src.chars.len()
}

/// `AND condition` each time.
pub open spec fn more_conditions(
    src: SourceView,
    i: int,
    j: int,
    cs: Seq<WhereConditionView>,
) -> bool
    decreases cs,
{
    if cs.len() == 0 {
        i == j
    } else {
        exists|a: int, b: int| #[trigger]
            mark(src, i, a, "AND"@) && #[trigger] within(src, b) && condition(src, a, b, cs[0])
                && more_conditions(
                src,
                b,
                j,
                cs.drop_first(),
            )
    }
}

/// `WHERE condition AND ..`, or nothing.
pub open spec fn conditions(src: SourceView, i: int, j: int, cs: Seq<WhereConditionView>) -> bool
    decreases cs,
{
    if cs.len() == 0 {
        i == j
    } else {
        exists|a: int, b: int| #[trigger]
            mark(src, i, a, "WHERE"@) && #[trigger] within(src, b) && condition(src, a, b, cs[0])
                && more_conditions(
                src,
                b,
                j,
                cs.drop_first(),
            )
    }
}

/// `alias` or `alias.property`.
pub open spec fn item(src: SourceView, i: int, j: int, r: ReturnItemView) -> bool {
    match r.property {
        Some(property) => reference(src, i, j, r.alias, property),
        None => name(src, i, j, r.alias),
    }
}

/// `, item` each time.
pub open spec fn more_items(src: SourceView, i: int, j: int, items: Seq<ReturnItemView>) -> bool
    decreases items.len(),
{
    if items.len() == 0 {
        i == j
    } else {
        exists|a: int, b: int| #[trigger]
            mark(src, i, a, ","@) && #[trigger] item(src, a, b, items[0]) && more_items(
                src,
                b,
                j,
                items.drop_first(),
            )
    }
}

/// `RETURN item, ..` with one item at least.
pub open spec fn items(src: SourceView, i: int, j: int, rs: Seq<ReturnItemView>) -> bool {
    rs.len() > 0 && exists|a: int, b: int| #[trigger]
        mark(src, i, a, "RETURN"@) && #[trigger] item(src, a, b, rs[0]) && more_items(
            src,
            b,
            j,
            rs.drop_first(),
        )
}

/// `DESC`, or `ASC` or nothing for an ascending order.
pub open spec fn sorting(src: SourceView, i: int, j: int, d: SortDirection) -> bool {
    match d {
        SortDirection::Asc => i == j || mark(src, i, j, "ASC"@),
        SortDirection::Desc => mark(src, i, j, "DESC"@),
    }
}

/// `ORDER BY alias.property` and a direction, or nothing.
pub open spec fn order(src: SourceView, i: int, j: int, o: Option<OrderByView>) -> bool {
    match o {
        None => i == j,
        Some(o) => exists|a: int, b: int, c: int| #[trigger]
            mark(src, i, a, "ORDER"@) && #[trigger] mark(src, a, b, "BY"@) && #[trigger] reference(
                src,
                b,
                c,
                o.alias,
                o.property,
            ) && sorting(src, c, j, o.direction),
    }
}

/// `LIMIT n`, or nothing.
pub open spec fn limit(src: SourceView, i: int, j: int, n: Option<u64>) -> bool {
    match n {
        None => i == j,
        Some(n) => exists|a: int| #[trigger] mark(src, i, a, "LIMIT"@) && number(src, a, j, n as int),
    }
}

/// That a text writes a query, with nothing else in it.
pub open spec fn is_text_of(source: Seq<char>, q: QueryView) -> bool {
    let src = SourceView { chars: source, comments: false };
    exists|a: int, b: int, c: int, d: int, e: int, f: int| #[trigger]
        mark(src, 0, a, "MATCH"@) && #[trigger] pattern(src, a, b, q.pattern)
            && #[trigger] conditions(src, b, c, q.where_conditions) && #[trigger] items(
            src,
            c,
            d,
            q.returns,
        ) && #[trigger] order(src, d, e, q.order_by) && #[trigger] limit(src, e, f, q.limit) && gap(
            src,
            f,
            source.len() as int,
        )
}

pub proof fn lemma_whole(src: SourceView, pos: int)
    requires
        0 <= pos <= src.chars.len(),
    ensures
        parser::int_at(src, pos) matches Some((n, j)) ==> literal(
            src,
            pos,
            j,
            LiteralView::Int64(n),
        ) && pos < j <= src.chars.len(),
{
    layout::lemma_gap(src, pos);
    let p = text::skip_blank(src, pos);
    let negative = p < src.chars.len() && src.chars[p] == '-';
    let d: int = if negative {
        p + 1
    } else {
        p
    };
    layout::lemma_read_digits(src.chars, d);
    if let Some((n, j)) = parser::int_at(src, pos) {
        let t = src.chars.subrange(p, j);
        if negative {
            assert(t.drop_first() =~= src.chars.subrange(d, j));
            assert(t[0] == src.chars[p]);
        }
        assert(mark(src, pos, j, t) && writes_whole(t, n as int));
    }
}

pub proof fn lemma_fraction(src: SourceView, pos: int)
    requires
        0 <= pos <= src.chars.len(),
    ensures
        parser::float_at(src, pos) matches Some((t, j)) ==> literal(
            src,
            pos,
            j,
            LiteralView::FloatText(t),
        ) && pos < j <= src.chars.len(),
{
    layout::lemma_gap(src, pos);
    let s = src.chars;
    let p = text::skip_blank(src, pos);
    let negative = p < s.len() && s[p] == '-';
    let d: int = if negative {
        p + 1
    } else {
        p
    };
    layout::lemma_read_digits(s, d);
    if let Some(e) = text::digits_at(s, d) {
        if e < s.len() && s[e] == '.' {
            layout::lemma_read_digits(s, e + 1);
            if let Some(f) = text::digits_at(s, e + 1) {
                let t = s.subrange(p, f);
                assert(t[0] == s[p]);
                if !negative {
                    assert(s.subrange(d, e)[0] == s[p]);
                    assert('0' <= s.subrange(d, e)[0]);
                }
                let k: int = e - p;
                assert(t[k] == s[e]);
                assert(t.subrange(d - p, k) =~= s.subrange(d, e));
                assert(t.subrange(k + 1, t.len() as int) =~= s.subrange(e + 1, f));
                assert(writing::is_fraction(t));
            }
        }
    }
}

pub proof fn lemma_literal(src: SourceView, pos: int)
    requires
        0 <= pos <= src.chars.len(),
    ensures
        parser::literal_at(src, pos) matches Some((l, j)) ==> literal(src, pos, j, l) && pos < j
            <= src.chars.len(),
{
    reveal_strlit("true");
    reveal_strlit("false");
    layout::lemma_read_quoted(src, pos);
    lemma_fraction(src, pos);
    lemma_whole(src, pos);
    layout::lemma_read_word(src, pos, "true"@);
    layout::lemma_read_word(src, pos, "false"@);
}

pub proof fn lemma_op(src: SourceView, pos: int)
    requires
        0 <= pos <= src.chars.len(),
    ensures
        parser::op_at(src, pos) matches Some((op, j)) ==> mark(src, pos, j, writing::op_token(op))
            && pos < j <= src.chars.len(),
{
    reveal_strlit("<>");
    reveal_strlit("<=");
    reveal_strlit(">=");
    reveal_strlit("=");
    reveal_strlit("<");
    reveal_strlit(">");
    layout::lemma_read_word(src, pos, "<>"@);
    layout::lemma_read_word(src, pos, "<="@);
    layout::lemma_read_word(src, pos, ">="@);
    layout::lemma_read_word(src, pos, "="@);
    layout::lemma_read_word(src, pos, "<"@);
    layout::lemma_read_word(src, pos, ">"@);
}

pub proof fn lemma_pair(src: SourceView, pos: int)
    requires
        0 <= pos <= src.chars.len(),
    ensures
        parser::property_kv_at(src, pos) matches Some((f, j)) ==> pair(src, pos, j, f) && pos < j
            <= src.chars.len(),
{
    reveal_strlit(":");
    layout::lemma_read_name(src, pos);
    if let Some((n, p)) = text::ident_at(src, pos) {
        layout::lemma_read_word(src, p, ":"@);
        if let Some(q) = text::word_at(src, p, ":"@) {
            lemma_literal(src, q);
            if let Some((f, j)) = parser::property_kv_at(src, pos) {
                assert(name(src, pos, p, f.property) && mark(src, p, q, ":"@) && literal(
                    src,
                    q,
                    j,
                    f.value,
                ));
            }
        }
    }
}

pub proof fn lemma_more_pairs(src: SourceView, pos: int)
    requires
        0 <= pos <= src.chars.len(),
    ensures
        more_pairs(
            src,
            pos,
            parser::more_property_kvs_at(src, pos).1,
            parser::more_property_kvs_at(src, pos).0,
        ),
        pos <= parser::more_property_kvs_at(src, pos).1 <= src.chars.len(),
    decreases src.chars.len() - pos,
{
    reveal_strlit(",");
    layout::lemma_read_word(src, pos, ","@);
    if let Some(p) = text::word_at(src, pos, ","@) {
        lemma_pair(src, p);
        if let Some((kv, q)) = parser::property_kv_at(src, p) {
            lemma_more_pairs(src, q);
            let (rest, e) = parser::more_property_kvs_at(src, q);
            let all = seq![kv] + rest;
            assert(all.drop_first() =~= rest);
            assert(mark(src, pos, p, ","@) && pair(src, p, q, all[0]));
            assert(more_pairs(src, pos, e, all));
        }
    }
}

pub proof fn lemma_pairs(src: SourceView, pos: int)
    requires
        0 <= pos <= src.chars.len(),
    ensures
        parser::property_map_at(src, pos) matches Some((fs, j)) ==> pairs(src, pos, j, fs) && pos
            < j <= src.chars.len(),
{
    reveal_strlit("{");
    reveal_strlit("}");
    layout::lemma_read_word(src, pos, "{"@);
    if let Some(p) = text::word_at(src, pos, "{"@) {
        lemma_pair(src, p);
        if let Some((kv, q)) = parser::property_kv_at(src, p) {
            lemma_more_pairs(src, q);
            let (rest, r) = parser::more_property_kvs_at(src, q);
            layout::lemma_read_word(src, r, "}"@);
            let all = seq![kv] + rest;
            assert(all.drop_first() =~= rest);
            if let Some(e) = text::word_at(src, r, "}"@) {
                assert(mark(src, pos, p, "{"@) && pair(src, p, q, all[0]) && mark(src, r, e, "}"@));
            }
        }
    }
}

pub proof fn lemma_suffix(src: SourceView, pos: int)
    requires
        0 <= pos <= src.chars.len(),
    ensures
        suffix(src, pos, parser::type_suffix_at(src, pos).1, parser::type_suffix_at(src, pos).0),
        pos <= parser::type_suffix_at(src, pos).1 <= src.chars.len(),
{
    reveal_strlit(":");
    layout::lemma_read_word(src, pos, ":"@);
    if let Some(p) = text::word_at(src, pos, ":"@) {
        layout::lemma_read_name(src, p);
    }
}

pub proof fn lemma_node(src: SourceView, pos: int)
    requires
        0 <= pos <= src.chars.len(),
    ensures
        parser::node_pattern_at(src, pos) matches Some((n, j)) ==> node(src, pos, j, n) && pos < j
            <= src.chars.len(),
{
    reveal_strlit("(");
    reveal_strlit(")");
    layout::lemma_read_word(src, pos, "("@);
    if let Some(p) = text::word_at(src, pos, "("@) {
        layout::lemma_read_name(src, p);
        if let Some((alias, q)) = text::ident_at(src, p) {
            lemma_suffix(src, q);
            let (label, r) = parser::type_suffix_at(src, q);
            lemma_pairs(src, r);
            let t: int = match parser::property_map_at(src, r) {
                Some((filters, t)) => t,
                None => r,
            };
            layout::lemma_read_word(src, t, ")"@);
            if let Some((n, e)) = parser::node_pattern_at(src, pos) {
                assert(mark(src, pos, p, "("@) && name(src, p, q, n.alias) && suffix(
                    src,
                    q,
                    r,
                    n.label,
                ) && pairs(src, r, t, n.property_filters) && mark(src, t, e, ")"@));
            }
        }
    }
}

pub proof fn lemma_range(src: SourceView, pos: int)
    requires
        0 <= pos <= src.chars.len(),
    ensures
        parser::hop_range_at(src, pos) matches Some((h, j)) ==> range(src, pos, j, h) && pos < j
            <= src.chars.len(),
{
    reveal_strlit("*");
    reveal_strlit("..");
    layout::lemma_read_word(src, pos, "*"@);
    if let Some(p) = text::word_at(src, pos, "*"@) {
        layout::lemma_read_number(src, p, u32::MAX as int);
        if let Some((min, q)) = text::number_at(src, p, u32::MAX as int) {
            layout::lemma_read_word(src, q, ".."@);
            if let Some(r) = text::word_at(src, q, ".."@) {
                layout::lemma_read_number(src, r, u32::MAX as int);
                if let Some((h, j)) = parser::hop_range_at(src, pos) {
                    assert(h.min as int == min);
                    assert(mark(src, pos, p, "*"@) && number(src, p, q, h.min as int) && mark(
                        src,
                        q,
                        r,
                        ".."@,
                    ) && number(src, r, j, h.max as int));
                }
            }
        }
    }
}

pub proof fn lemma_detail(src: SourceView, pos: int)
    requires
        0 <= pos <= src.chars.len(),
    ensures
        ({
            let (d, j) = parser::optional_detail_at(src, pos);
            detail(src, pos, j, d.alias, d.edge_type, d.hops) && pos <= j <= src.chars.len()
        }),
{
    reveal_strlit("[");
    reveal_strlit("]");
    layout::lemma_read_word(src, pos, "["@);
    if let Some(p) = text::word_at(src, pos, "["@) {
        layout::lemma_read_name(src, p);
        let q: int = match text::ident_at(src, p) {
            Some((alias, q)) => q,
            None => p,
        };
        lemma_suffix(src, q);
        let (edge_type, r) = parser::type_suffix_at(src, q);
        lemma_range(src, r);
        let t: int = match parser::hop_range_at(src, r) {
            Some((hops, t)) => t,
            None => r,
        };
        layout::lemma_read_word(src, t, "]"@);
        if let Some((d, e)) = parser::edge_detail_at(src, pos) {
            assert(mark(src, pos, p, "["@) && optional_name(src, p, q, d.alias) && suffix(
                src,
                q,
                r,
                d.edge_type,
            ) && range(src, r, t, d.hops) && mark(src, t, e, "]"@));
        }
    }
}

pub proof fn lemma_arrow(
    src: SourceView,
    pos: int,
    open: Seq<char>,
    close: Seq<char>,
    direction: Direction,
)
    requires
        0 <= pos <= src.chars.len(),
        open.len() > 0,
        close.len() > 0,
        match direction {
            Direction::Outgoing => open == "-"@ && close == "->"@,
            Direction::Incoming => open == "<-"@ && close == "-"@,
        },
    ensures
        parser::arrow_at(src, pos, open, close, direction) matches Some((e, j)) ==> edge(
            src,
            pos,
            j,
            e,
        ) && pos < j <= src.chars.len(),
{
    layout::lemma_read_word(src, pos, open);
    if let Some(p) = text::word_at(src, pos, open) {
        lemma_detail(src, p);
        let (d, q) = parser::optional_detail_at(src, p);
        layout::lemma_read_word(src, q, close);
        if let Some((e, j)) = parser::arrow_at(src, pos, open, close, direction) {
            assert(mark(src, pos, p, open) && detail(src, p, q, e.alias, e.edge_type, e.hops)
                && mark(src, q, j, close));
            assert(arrow(src, pos, j, open, e, close));
        }
    }
}

pub proof fn lemma_edge(src: SourceView, pos: int)
    requires
        0 <= pos <= src.chars.len(),
    ensures
        parser::edge_pattern_at(src, pos) matches Some((e, j)) ==> edge(src, pos, j, e) && pos < j
            <= src.chars.len(),
{
    reveal_strlit("-");
    reveal_strlit("->");
    reveal_strlit("<-");
    lemma_arrow(src, pos, "-"@, "->"@, Direction::Outgoing);
    lemma_arrow(src, pos, "<-"@, "-"@, Direction::Incoming);
}

pub proof fn lemma_more_steps(src: SourceView, pos: int)
    requires
        0 <= pos <= src.chars.len(),
    ensures
        more_steps(src, pos, parser::more_steps_at(src, pos).1, parser::more_steps_at(src, pos).0),
        pos <= parser::more_steps_at(src, pos).1 <= src.chars.len(),
    decreases src.chars.len() - pos,
{
    lemma_edge(src, pos);
    if let Some((e, p)) = parser::edge_pattern_at(src, pos) {
        lemma_node(src, p);
        if let Some((n, q)) = parser::node_pattern_at(src, p) {
            lemma_more_steps(src, q);
            let (rest, j) = parser::more_steps_at(src, q);
            let all = seq![PatternStepView::Edge(e), PatternStepView::Node(n)] + rest;
            assert(all.skip(2) =~= rest);
            assert(all[0] == PatternStepView::Edge(e) && all[1] == PatternStepView::Node(n)
                && edge(src, pos, p, e) && node(src, p, q, n));
            assert(more_steps(src, pos, j, all));
        }
    }
}

pub proof fn lemma_pattern(src: SourceView, pos: int)
    requires
        0 <= pos <= src.chars.len(),
    ensures
        parser::pattern_at(src, pos) matches Some((p, j)) ==> pattern(src, pos, j, p) && pos < j
            <= src.chars.len(),
{
    lemma_node(src, pos);
    if let Some((n, p)) = parser::node_pattern_at(src, pos) {
        lemma_more_steps(src, p);
        let (rest, j) = parser::more_steps_at(src, p);
        let all = seq![PatternStepView::Node(n)] + rest;
        assert(all.drop_first() =~= rest);
        assert(all[0] == PatternStepView::Node(n) && node(src, pos, p, n));
    }
}

pub proof fn lemma_reference(src: SourceView, pos: int)
    requires
        0 <= pos <= src.chars.len(),
    ensures
        parser::property_ref_at(src, pos) matches Some((r, j)) ==> reference(
            src,
            pos,
            j,
            r.alias,
            r.property,
        ) && pos < j <= src.chars.len(),
{
    reveal_strlit(".");
    layout::lemma_read_name(src, pos);
    if let Some((alias, p)) = text::ident_at(src, pos) {
        layout::lemma_read_word(src, p, "."@);
        if let Some(q) = text::word_at(src, p, "."@) {
            layout::lemma_read_name(src, q);
        }
    }
}

pub proof fn lemma_comparison(src: SourceView, pos: int)
    requires
        0 <= pos <= src.chars.len(),
    ensures
        parser::property_comparison_at(src, pos) matches Some((c, j)) ==> condition(src, pos, j, c)
            && pos < j <= src.chars.len(),
        parser::property_condition_at(src, pos) matches Some((c, j)) ==> condition(src, pos, j, c)
            && pos < j <= src.chars.len(),
{
    lemma_reference(src, pos);
    if let Some((left, p)) = parser::property_ref_at(src, pos) {
        lemma_op(src, p);
        if let Some((op, q)) = parser::op_at(src, p) {
            lemma_reference(src, q);
            lemma_literal(src, q);
            if let Some((right, j)) = parser::property_ref_at(src, q) {
                let c = WhereConditionView::PropertyComparison { left, op, right };
                assert(reference(
                    src,
                    pos,
                    p,
                    c->PropertyComparison_left.alias,
                    c->PropertyComparison_left.property,
                ) && mark(src, p, q, writing::op_token(c->PropertyComparison_op)) && reference(
                    src,
                    q,
                    j,
                    c->PropertyComparison_right.alias,
                    c->PropertyComparison_right.property,
                ));
                assert(condition(src, pos, j, c));
            }
            if let Some((value, j)) = parser::literal_at(src, q) {
                let f = PropertyFilterView { property: left.property, op, value };
                let c = WhereConditionView::Property(left.alias, f);
                assert(reference(src, pos, p, c->Property_0, c->Property_1.property) && mark(
                    src,
                    p,
                    q,
                    writing::op_token(c->Property_1.op),
                ) && literal(src, q, j, c->Property_1.value));
                assert(condition(src, pos, j, c));
            }
        }
    }
}

pub proof fn lemma_alias_comparison(src: SourceView, pos: int)
    requires
        0 <= pos <= src.chars.len(),
    ensures
        parser::alias_comparison_at(src, pos) matches Some((c, j)) ==> condition(src, pos, j, c)
            && pos < j <= src.chars.len(),
{
    layout::lemma_read_name(src, pos);
    if let Some((left, p)) = text::ident_at(src, pos) {
        lemma_op(src, p);
        if let Some((op, q)) = parser::op_at(src, p) {
            layout::lemma_read_name(src, q);
            if let Some((right, j)) = text::ident_at(src, q) {
                let c = WhereConditionView::AliasComparison { left, op, right };
                assert(name(src, pos, p, c->AliasComparison_left) && mark(
                    src,
                    p,
                    q,
                    writing::op_token(c->AliasComparison_op),
                ) && name(src, q, j, c->AliasComparison_right));
                assert(condition(src, pos, j, c));
            }
        }
    }
}

pub proof fn lemma_not_exists_head(src: SourceView, pos: int)
    requires
        0 <= pos <= src.chars.len(),
    ensures
        parser::not_exists_head_at(src, pos) matches Some((p, j)) ==> not_exists_head(
            src,
            pos,
            j,
            p,
        ) && pos < j <= src.chars.len(),
{
    reveal_strlit("NOT");
    reveal_strlit("EXISTS");
    reveal_strlit("{");
    reveal_strlit("MATCH");
    layout::lemma_read_word(src, pos, "NOT"@);
    if let Some(p) = text::word_at(src, pos, "NOT"@) {
        layout::lemma_read_word(src, p, "EXISTS"@);
        if let Some(q) = text::word_at(src, p, "EXISTS"@) {
            layout::lemma_read_word(src, q, "{"@);
            if let Some(r) = text::word_at(src, q, "{"@) {
                layout::lemma_read_word(src, r, "MATCH"@);
                if let Some(t) = text::word_at(src, r, "MATCH"@) {
                    lemma_pattern(src, t);
                }
            }
        }
    }
}

pub proof fn lemma_not_exists(src: SourceView, pos: int)
    requires
        0 <= pos <= src.chars.len(),
    ensures
        parser::not_exists_at(src, pos) matches Some((c, j)) ==> condition(src, pos, j, c) && pos
            < j <= src.chars.len(),
    decreases src.chars.len() - pos, 0int,
{
    reveal_strlit("}");
    lemma_not_exists_head(src, pos);
    if let Some((pattern, p)) = parser::not_exists_head_at(src, pos) {
        lemma_conditions(src, p);
        let (cs, q) = match parser::where_clause_at(src, p) {
            Some((cs, q)) => (cs, q),
            None => (Seq::<WhereConditionView>::empty(), p),
        };
        layout::lemma_read_word(src, q, "}"@);
        if let Some(e) = text::word_at(src, q, "}"@) {
            let sub = ExistsSubqueryView { pattern, where_conditions: cs };
            let c = WhereConditionView::NotExists(sub);
            assert(not_exists_head(src, pos, p, c->NotExists_0.pattern) && conditions(
                src,
                p,
                q,
                c->NotExists_0.where_conditions,
            ) && mark(src, q, e, "}"@));
            assert(condition(src, pos, e, c));
            assert(parser::not_exists_at(src, pos) == Some((c, e)));
        }
    }
}

pub proof fn lemma_condition(src: SourceView, pos: int)
    requires
        0 <= pos <= src.chars.len(),
    ensures
        parser::where_condition_at(src, pos) matches Some((c, j)) ==> condition(src, pos, j, c)
            && pos < j <= src.chars.len(),
    decreases src.chars.len() - pos, 1int,
{
    lemma_not_exists(src, pos);
    lemma_comparison(src, pos);
    lemma_alias_comparison(src, pos);
}

pub proof fn lemma_more_conditions(src: SourceView, pos: int)
    requires
        0 <= pos <= src.chars.len(),
    ensures
        more_conditions(
            src,
            pos,
            parser::more_conditions_at(src, pos).1,
            parser::more_conditions_at(src, pos).0,
        ),
        pos <= parser::more_conditions_at(src, pos).1 <= src.chars.len(),
    decreases src.chars.len() - pos, 2int,
{
    reveal_strlit("AND");
    layout::lemma_read_word(src, pos, "AND"@);
    if let Some(p) = text::word_at(src, pos, "AND"@) {
        lemma_condition(src, p);
        if let Some((c, q)) = parser::where_condition_at(src, p) {
            lemma_more_conditions(src, q);
            let (rest, e) = parser::more_conditions_at(src, q);
            let all = seq![c] + rest;
            assert(all.drop_first() =~= rest);
            assert(mark(src, pos, p, "AND"@) && within(src, q) && condition(src, p, q, all[0])
                && more_conditions(
                src,
                q,
                e,
                all.drop_first(),
            ));
            assert(more_conditions(src, pos, e, all));
        }
    }
}

pub proof fn lemma_conditions(src: SourceView, pos: int)
    requires
        0 <= pos <= src.chars.len(),
    ensures
        parser::where_clause_at(src, pos) matches Some((cs, j)) ==> conditions(src, pos, j, cs)
            && pos < j <= src.chars.len(),
    decreases src.chars.len() - pos, 3int,
{
    reveal_strlit("WHERE");
    layout::lemma_read_word(src, pos, "WHERE"@);
    if let Some(p) = text::word_at(src, pos, "WHERE"@) {
        lemma_condition(src, p);
        if let Some((c, q)) = parser::where_condition_at(src, p) {
            lemma_more_conditions(src, q);
            let (rest, e) = parser::more_conditions_at(src, q);
            let all = seq![c] + rest;
            assert(all.drop_first() =~= rest);
            assert(mark(src, pos, p, "WHERE"@) && within(src, q) && condition(src, p, q, all[0])
                && more_conditions(
                src,
                q,
                e,
                all.drop_first(),
            ));
        }
    }
}

pub proof fn lemma_item(src: SourceView, pos: int)
    requires
        0 <= pos <= src.chars.len(),
    ensures
        parser::return_item_at(src, pos) matches Some((r, j)) ==> item(src, pos, j, r) && pos < j
            <= src.chars.len(),
{
    reveal_strlit(".");
    layout::lemma_read_name(src, pos);
    if let Some((alias, p)) = text::ident_at(src, pos) {
        layout::lemma_read_word(src, p, "."@);
        if let Some(q) = text::word_at(src, p, "."@) {
            layout::lemma_read_name(src, q);
        }
    }
}

pub proof fn lemma_more_items(src: SourceView, pos: int)
    requires
        0 <= pos <= src.chars.len(),
    ensures
        more_items(
            src,
            pos,
            parser::more_return_items_at(src, pos).1,
            parser::more_return_items_at(src, pos).0,
        ),
        pos <= parser::more_return_items_at(src, pos).1 <= src.chars.len(),
    decreases src.chars.len() - pos,
{
    reveal_strlit(",");
    layout::lemma_read_word(src, pos, ","@);
    if let Some(p) = text::word_at(src, pos, ","@) {
        lemma_item(src, p);
        if let Some((r, q)) = parser::return_item_at(src, p) {
            lemma_more_items(src, q);
            let (rest, e) = parser::more_return_items_at(src, q);
            let all = seq![r] + rest;
            assert(all.drop_first() =~= rest);
            assert(mark(src, pos, p, ","@) && item(src, p, q, all[0]));
            assert(more_items(src, pos, e, all));
        }
    }
}

pub proof fn lemma_items(src: SourceView, pos: int)
    requires
        0 <= pos <= src.chars.len(),
    ensures
        parser::return_clause_at(src, pos) matches Some((rs, j)) ==> items(src, pos, j, rs) && pos
            < j <= src.chars.len(),
{
    reveal_strlit("RETURN");
    layout::lemma_read_word(src, pos, "RETURN"@);
    if let Some(p) = text::word_at(src, pos, "RETURN"@) {
        lemma_item(src, p);
        if let Some((r, q)) = parser::return_item_at(src, p) {
            lemma_more_items(src, q);
            let (rest, e) = parser::more_return_items_at(src, q);
            let all = seq![r] + rest;
            assert(all.drop_first() =~= rest);
            assert(mark(src, pos, p, "RETURN"@) && item(src, p, q, all[0]));
        }
    }
}

pub proof fn lemma_order(src: SourceView, pos: int)
    requires
        0 <= pos <= src.chars.len(),
    ensures
        parser::order_by_at(src, pos) matches Some((o, j)) ==> order(src, pos, j, Some(o)) && pos
            < j <= src.chars.len(),
{
    reveal_strlit("ORDER");
    reveal_strlit("BY");
    reveal_strlit("ASC");
    reveal_strlit("DESC");
    layout::lemma_read_word(src, pos, "ORDER"@);
    if let Some(p) = text::word_at(src, pos, "ORDER"@) {
        layout::lemma_read_word(src, p, "BY"@);
        if let Some(q) = text::word_at(src, p, "BY"@) {
            lemma_reference(src, q);
            if let Some((r, t)) = parser::property_ref_at(src, q) {
                layout::lemma_read_word(src, t, "ASC"@);
                layout::lemma_read_word(src, t, "DESC"@);
                let (direction, e) = parser::sort_direction_at(src, t);
                let o = OrderByView { alias: r.alias, property: r.property, direction };
                assert(mark(src, pos, p, "ORDER"@) && mark(src, p, q, "BY"@) && reference(
                    src,
                    q,
                    t,
                    o.alias,
                    o.property,
                ) && sorting(src, t, e, o.direction));
                assert(order(src, pos, e, Some(o)));
            }
        }
    }
}

pub proof fn lemma_limit(src: SourceView, pos: int)
    requires
        0 <= pos <= src.chars.len(),
    ensures
        parser::limit_at(src, pos) matches Some((n, j)) ==> limit(src, pos, j, Some(n)) && pos < j
            <= src.chars.len(),
{
    reveal_strlit("LIMIT");
    layout::lemma_read_word(src, pos, "LIMIT"@);
    if let Some(p) = text::word_at(src, pos, "LIMIT"@) {
        layout::lemma_read_number(src, p, u64::MAX as int);
    }
}

/// Where a text reads as a query, that query is what the text writes, and it
/// writes nothing else: each name, number, comparison and clause of the query
/// stands in the text, in its place, with nothing but blank space between.
pub proof fn law_what_is_read_is_what_is_written(source: Seq<char>, q: QueryView)
    requires
        parser::query_of(source) == Ok::<QueryView, (int, Seq<char>)>(q),
    ensures
        is_text_of(source, q),
{
    reveal_strlit("MATCH");
    let src = SourceView { chars: source, comments: false };
    layout::lemma_read_word(src, 0, "MATCH"@);
    let a = text::word_at(src, 0, "MATCH"@)->Some_0;
    lemma_pattern(src, a);
    let b = parser::pattern_at(src, a)->Some_0.1;
    lemma_conditions(src, b);
    let c: int = match parser::where_clause_at(src, b) {
        Some((cs, c)) => c,
        None => b,
    };
    lemma_items(src, c);
    let d = parser::return_clause_at(src, c)->Some_0.1;
    lemma_order(src, d);
    let e: int = match parser::order_by_at(src, d) {
        Some((o, e)) => e,
        None => d,
    };
    lemma_limit(src, e);
    let f: int = match parser::limit_at(src, e) {
        Some((n, f)) => f,
        None => e,
    };
    layout::lemma_gap(src, f);
    assert(mark(src, 0, a, "MATCH"@) && pattern(src, a, b, q.pattern) && conditions(
        src,
        b,
        c,
        q.where_conditions,
    ) && items(src, c, d, q.returns) && order(src, d, e, q.order_by) && limit(src, e, f, q.limit));
}

} // verus!
