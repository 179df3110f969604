//! The grammar of the query language and its parser.
//!
//! Each rule of the grammar is a specification function on a text and a
//! position; it gives what the rule reads there and the position behind it.
//! Alternatives are tried in order and the first that reads is taken. Blank
//! space may stand before every token. Each parsing function gives exactly
//! what its rule says.
use crate::dsl::{
    ComparisonOp, Direction, DslError, EdgePattern, EdgePatternView, ExistsSubquery,
    ExistsSubqueryView, HopRange, Literal, LiteralView, NodePattern, NodePatternView, OrderBy,
    OrderByView, Pattern, PatternStep, PatternStepView, PatternView, PropertyFilter,
    PropertyFilterView, PropertyRef, PropertyRefView, Query, QueryView, ReturnItem,
    ReturnItemView, SortDirection, WhereCondition, WhereConditionView,
};
use crate::dsl::reach;
use crate::schema::{EdgeType, Label};
use crate::text;
use crate::text::{Source, SourceView};
use vstd::prelude::*;
use vstd::string::*;

verus! {

/// `-? digits`, in the range of a 64-bit integer.
pub open spec fn int_at(src: SourceView, pos: int) -> Option<(i64, int)> {
    let p = text::skip_blank(src, pos);
    let negative = 0 <= p < src.chars.len() && src.chars[p] == '-';
    let d = if negative { p + 1 } else { p };
    match text::digits_at(src.chars, d) {
        Some(e) => {
            let n = text::decimal(src.chars.subrange(d, e));
            let value = if negative { -n } else { n };
            if i64::MIN <= value <= i64::MAX {
                Some((value as i64, e))
            } else {
                None
            }
        },
        None => None,
    }
}

/// `-? digits . digits`, as text.
pub open spec fn float_at(src: SourceView, pos: int) -> Option<(Seq<char>, int)> {
    let p = text::skip_blank(src, pos);
    let d = if 0 <= p < src.chars.len() && src.chars[p] == '-' { p + 1 } else { p };
    match text::digits_at(src.chars, d) {
        Some(e) => if e < src.chars.len() && src.chars[e] == '.' {
            match text::digits_at(src.chars, e + 1) {
                Some(f) => Some((src.chars.subrange(p, f), f)),
                None => None,
            }
        } else {
            None
        },
        None => None,
    }
}

/// A string, a number with a fraction, an integer, `true` or `false`.
pub open spec fn literal_at(src: SourceView, pos: int) -> Option<(LiteralView, int)> {
    match text::quoted_at(src, pos) {
        Some((v, p)) => Some((LiteralView::String(v), p)),
        None => match float_at(src, pos) {
            Some((v, p)) => Some((LiteralView::FloatText(v), p)),
            None => match int_at(src, pos) {
                Some((v, p)) => Some((LiteralView::Int64(v), p)),
                None => match text::word_at(src, pos, "true"@) {
                    Some(p) => Some((LiteralView::Bool(true), p)),
                    None => match text::word_at(src, pos, "false"@) {
                        Some(p) => Some((LiteralView::Bool(false), p)),
                        None => None,
                    },
                },
            },
        },
    }
}

/// `= <> < <= > >=`.
pub open spec fn op_at(src: SourceView, pos: int) -> Option<(ComparisonOp, int)> {
    match text::word_at(src, pos, "<>"@) {
        Some(p) => Some((ComparisonOp::Ne, p)),
        None => match text::word_at(src, pos, "<="@) {
            Some(p) => Some((ComparisonOp::Lte, p)),
            None => match text::word_at(src, pos, ">="@) {
                Some(p) => Some((ComparisonOp::Gte, p)),
                None => match text::word_at(src, pos, "="@) {
                    Some(p) => Some((ComparisonOp::Eq, p)),
                    None => match text::word_at(src, pos, "<"@) {
                        Some(p) => Some((ComparisonOp::Lt, p)),
                        None => match text::word_at(src, pos, ">"@) {
                            Some(p) => Some((ComparisonOp::Gt, p)),
                            None => None,
                        },
                    },
                },
            },
        },
    }
}

/// `name: literal`, a filter for equality.
pub open spec fn property_kv_at(src: SourceView, pos: int) -> Option<(PropertyFilterView, int)> {
    match text::ident_at(src, pos) {
        Some((property, p)) => match text::word_at(src, p, ":"@) {
            Some(q) => match literal_at(src, q) {
                Some((value, e)) => Some(
                    (PropertyFilterView { property, op: ComparisonOp::Eq, value }, e),
                ),
                None => None,
            },
            None => None,
        },
        None => None,
    }
}

/// `(, name: literal)*`.
pub open spec fn more_property_kvs_at(src: SourceView, pos: int) -> (Seq<PropertyFilterView>, int)
    decreases src.chars.len() - pos,
{
    match text::word_at(src, pos, ","@) {
        Some(p) => match property_kv_at(src, p) {
            Some((kv, q)) => if pos < q <= src.chars.len() {
                let (rest, e) = more_property_kvs_at(src, q);
                (seq![kv] + rest, e)
            } else {
                (seq![], pos)
            },
            None => (seq![], pos),
        },
        None => (seq![], pos),
    }
}

/// `{ name: literal, .. }`.
pub open spec fn property_map_at(src: SourceView, pos: int) -> Option<
    (Seq<PropertyFilterView>, int),
> {
    match text::word_at(src, pos, "{"@) {
        Some(p) => match property_kv_at(src, p) {
            Some((kv, q)) => {
                let (rest, r) = more_property_kvs_at(src, q);
                match text::word_at(src, r, "}"@) {
                    Some(e) => Some((seq![kv] + rest, e)),
                    None => None,
                }
            },
            None => None,
        },
        None => None,
    }
}

/// `(: name)?`.
pub open spec fn type_suffix_at(src: SourceView, pos: int) -> (Option<Seq<char>>, int) {
    match text::word_at(src, pos, ":"@) {
        Some(p) => match text::ident_at(src, p) {
            Some((name, e)) => (Some(name), e),
            None => (None, pos),
        },
        None => (None, pos),
    }
}

/// `( alias (:Label)? ({..})? )`.
pub open spec fn node_pattern_at(src: SourceView, pos: int) -> Option<(NodePatternView, int)> {
    match text::word_at(src, pos, "("@) {
        Some(p) => match text::ident_at(src, p) {
            Some((alias, q)) => {
                let (label, r) = type_suffix_at(src, q);
                let (property_filters, t) = match property_map_at(src, r) {
                    Some((filters, t)) => (filters, t),
                    None => (seq![], r),
                };
                match text::word_at(src, t, ")"@) {
                    Some(e) => Some((NodePatternView { alias, label, property_filters }, e)),
                    None => None,
                }
            },
            None => None,
        },
        None => None,
    }
}

/// `* min .. max`.
pub open spec fn hop_range_at(src: SourceView, pos: int) -> Option<(HopRange, int)> {
    match text::word_at(src, pos, "*"@) {
        Some(p) => match text::number_at(src, p, u32::MAX as int) {
            Some((min, q)) => match text::word_at(src, q, ".."@) {
                Some(r) => match text::number_at(src, r, u32::MAX as int) {
                    Some((max, e)) => Some((HopRange { min: min as u32, max: max as u32 }, e)),
                    None => None,
                },
                None => None,
            },
            None => None,
        },
        None => None,
    }
}

/// What stands in the brackets of an edge.
pub struct EdgeDetailView {
    pub alias: Option<Seq<char>>,
    pub edge_type: Option<Seq<char>>,
    pub hops: HopRange,
}

/// `[ alias? (:TYPE)? (*min..max)? ]`. Without a range it is one hop.
pub open spec fn edge_detail_at(src: SourceView, pos: int) -> Option<(EdgeDetailView, int)> {
    match text::word_at(src, pos, "["@) {
        Some(p) => {
            let (alias, q) = match text::ident_at(src, p) {
                Some((alias, q)) => (Some(alias), q),
                None => (None, p),
            };
            let (edge_type, r) = type_suffix_at(src, q);
            let (hops, t) = match hop_range_at(src, r) {
                Some((hops, t)) => (hops, t),
                None => (HopRange { min: 1, max: 1 }, r),
            };
            match text::word_at(src, t, "]"@) {
                Some(e) => Some((EdgeDetailView { alias, edge_type, hops }, e)),
                None => None,
            }
        },
        None => None,
    }
}

pub open spec fn optional_detail_at(src: SourceView, pos: int) -> (EdgeDetailView, int) {
    match edge_detail_at(src, pos) {
        Some((detail, p)) => (detail, p),
        None => (
            EdgeDetailView { alias: None, edge_type: None, hops: HopRange { min: 1, max: 1 } },
            pos,
        ),
    }
}

/// An edge that opens with `open` and closes with `close`.
pub open spec fn arrow_at(
    src: SourceView,
    pos: int,
    open: Seq<char>,
    close: Seq<char>,
    direction: Direction,
) -> Option<(EdgePatternView, int)> {
    match text::word_at(src, pos, open) {
        Some(p) => {
            let (detail, q) = optional_detail_at(src, p);
            match text::word_at(src, q, close) {
                Some(e) => Some(
                    (
                        EdgePatternView {
                            alias: detail.alias,
                            edge_type: detail.edge_type,
                            direction,
                            hops: detail.hops,
                        },
                        e,
                    ),
                ),
                None => None,
            }
        },
        None => None,
    }
}

/// `-[..]->` or `<-[..]-`, the brackets optional.
pub open spec fn edge_pattern_at(src: SourceView, pos: int) -> Option<(EdgePatternView, int)> {
    match arrow_at(src, pos, "-"@, "->"@, Direction::Outgoing) {
        Some(r) => Some(r),
        None => arrow_at(src, pos, "<-"@, "-"@, Direction::Incoming),
    }
}

/// `(edge node)*`.
pub open spec fn more_steps_at(src: SourceView, pos: int) -> (Seq<PatternStepView>, int)
    decreases src.chars.len() - pos,
{
    match edge_pattern_at(src, pos) {
        Some((edge, p)) => match node_pattern_at(src, p) {
            Some((node, q)) => if pos < q <= src.chars.len() {
                let (rest, e) = more_steps_at(src, q);
                (seq![PatternStepView::Edge(edge), PatternStepView::Node(node)] + rest, e)
            } else {
                (seq![], pos)
            },
            None => (seq![], pos),
        },
        None => (seq![], pos),
    }
}

/// `node (edge node)*`.
pub open spec fn pattern_at(src: SourceView, pos: int) -> Option<(PatternView, int)> {
    match node_pattern_at(src, pos) {
        Some((node, p)) => {
            let (rest, e) = more_steps_at(src, p);
            Some((PatternView { steps: seq![PatternStepView::Node(node)] + rest }, e))
        },
        None => None,
    }
}

/// `alias . property`.
pub open spec fn property_ref_at(src: SourceView, pos: int) -> Option<(PropertyRefView, int)> {
    match text::ident_at(src, pos) {
        Some((alias, p)) => match text::word_at(src, p, "."@) {
            Some(q) => match text::ident_at(src, q) {
                Some((property, e)) => Some((PropertyRefView { alias, property }, e)),
                None => None,
            },
            None => None,
        },
        None => None,
    }
}

/// `alias.property OP alias.property`.
pub open spec fn property_comparison_at(src: SourceView, pos: int) -> Option<
    (WhereConditionView, int),
> {
    match property_ref_at(src, pos) {
        Some((left, p)) => match op_at(src, p) {
            Some((op, q)) => match property_ref_at(src, q) {
                Some((right, e)) => Some(
                    (WhereConditionView::PropertyComparison { left, op, right }, e),
                ),
                None => None,
            },
            None => None,
        },
        None => None,
    }
}

/// `alias.property OP literal`.
pub open spec fn property_condition_at(src: SourceView, pos: int) -> Option<
    (WhereConditionView, int),
> {
    match property_ref_at(src, pos) {
        Some((left, p)) => match op_at(src, p) {
            Some((op, q)) => match literal_at(src, q) {
                Some((value, e)) => Some(
                    (
                        WhereConditionView::Property(
                            left.alias,
                            PropertyFilterView { property: left.property, op, value },
                        ),
                        e,
                    ),
                ),
                None => None,
            },
            None => None,
        },
        None => None,
    }
}

/// `alias OP alias`.
pub open spec fn alias_comparison_at(src: SourceView, pos: int) -> Option<
    (WhereConditionView, int),
> {
    match text::ident_at(src, pos) {
        Some((left, p)) => match op_at(src, p) {
            Some((op, q)) => match text::ident_at(src, q) {
                Some((right, e)) => Some(
                    (WhereConditionView::AliasComparison { left, op, right }, e),
                ),
                None => None,
            },
            None => None,
        },
        None => None,
    }
}

/// `NOT EXISTS { MATCH pattern`.
pub open spec fn not_exists_head_at(src: SourceView, pos: int) -> Option<(PatternView, int)> {
    match text::word_at(src, pos, "NOT"@) {
        Some(p) => match text::word_at(src, p, "EXISTS"@) {
            Some(q) => match text::word_at(src, q, "{"@) {
                Some(r) => match text::word_at(src, r, "MATCH"@) {
                    Some(t) => pattern_at(src, t),
                    None => None,
                },
                None => None,
            },
            None => None,
        },
        None => None,
    }
}

/// `NOT EXISTS { MATCH pattern where? }`.
pub open spec fn not_exists_at(src: SourceView, pos: int) -> Option<(WhereConditionView, int)>
    decreases src.chars.len() - pos, 0int,
{
    match not_exists_head_at(src, pos) {
        Some((pattern, p)) => if pos < p <= src.chars.len() {
            let (where_conditions, q) = match where_clause_at(src, p) {
                Some((conditions, q)) => (conditions, q),
                None => (seq![], p),
            };
            match text::word_at(src, q, "}"@) {
                Some(e) => Some(
                    (
                        WhereConditionView::NotExists(
                            ExistsSubqueryView { pattern, where_conditions },
                        ),
                        e,
                    ),
                ),
                None => None,
            }
        } else {
            None
        },
        None => None,
    }
}

/// One condition: a `NOT EXISTS`, a comparison of two properties, of a
/// property and a literal, or of two aliases.
pub open spec fn where_condition_at(src: SourceView, pos: int) -> Option<(WhereConditionView, int)>
    decreases src.chars.len() - pos, 1int,
{
    match not_exists_at(src, pos) {
        Some(r) => Some(r),
        None => match property_comparison_at(src, pos) {
            Some(r) => Some(r),
            None => match property_condition_at(src, pos) {
                Some(r) => Some(r),
                None => alias_comparison_at(src, pos),
            },
        },
    }
}

/// `(AND condition)*`.
pub open spec fn more_conditions_at(src: SourceView, pos: int) -> (Seq<WhereConditionView>, int)
    decreases src.chars.len() - pos, 2int,
{
    match text::word_at(src, pos, "AND"@) {
        Some(p) => if pos <= p <= src.chars.len() {
            match where_condition_at(src, p) {
                Some((condition, q)) => if pos < q <= src.chars.len() {
                    let (rest, e) = more_conditions_at(src, q);
                    (seq![condition] + rest, e)
                } else {
                    (seq![], pos)
                },
                None => (seq![], pos),
            }
        } else {
            (seq![], pos)
        },
        None => (seq![], pos),
    }
}

/// `WHERE condition (AND condition)*`.
pub open spec fn where_clause_at(src: SourceView, pos: int) -> Option<
    (Seq<WhereConditionView>, int),
>
    decreases src.chars.len() - pos, 3int,
{
    match text::word_at(src, pos, "WHERE"@) {
        Some(p) => if pos <= p <= src.chars.len() {
            match where_condition_at(src, p) {
                Some((condition, q)) => if pos < q <= src.chars.len() {
                    let (rest, e) = more_conditions_at(src, q);
                    Some((seq![condition] + rest, e))
                } else {
                    None
                },
                None => None,
            }
        } else {
            None
        },
        None => None,
    }
}

/// `alias (. property)?`.
pub open spec fn return_item_at(src: SourceView, pos: int) -> Option<(ReturnItemView, int)> {
    match text::ident_at(src, pos) {
        Some((alias, p)) => match text::word_at(src, p, "."@) {
            Some(q) => match text::ident_at(src, q) {
                Some((property, e)) => Some((ReturnItemView { alias, property: Some(property) }, e)),
                None => Some((ReturnItemView { alias, property: None }, p)),
            },
            None => Some((ReturnItemView { alias, property: None }, p)),
        },
        None => None,
    }
}

/// `(, item)*`.
pub open spec fn more_return_items_at(src: SourceView, pos: int) -> (Seq<ReturnItemView>, int)
    decreases src.chars.len() - pos,
{
    match text::word_at(src, pos, ","@) {
        Some(p) => match return_item_at(src, p) {
            Some((item, q)) => if pos < q <= src.chars.len() {
                let (rest, e) = more_return_items_at(src, q);
                (seq![item] + rest, e)
            } else {
                (seq![], pos)
            },
            None => (seq![], pos),
        },
        None => (seq![], pos),
    }
}

/// `RETURN item (, item)*`.
pub open spec fn return_clause_at(src: SourceView, pos: int) -> Option<(Seq<ReturnItemView>, int)> {
    match text::word_at(src, pos, "RETURN"@) {
        Some(p) => match return_item_at(src, p) {
            Some((item, q)) => {
                let (rest, e) = more_return_items_at(src, q);
                Some((seq![item] + rest, e))
            },
            None => None,
        },
        None => None,
    }
}

/// `(ASC | DESC)?`, ascending where neither is written.
pub open spec fn sort_direction_at(src: SourceView, pos: int) -> (SortDirection, int) {
    match text::word_at(src, pos, "ASC"@) {
        Some(e) => (SortDirection::Asc, e),
        None => match text::word_at(src, pos, "DESC"@) {
            Some(e) => (SortDirection::Desc, e),
            None => (SortDirection::Asc, pos),
        },
    }
}

/// `ORDER BY alias.property (ASC | DESC)?`.
pub open spec fn order_by_at(src: SourceView, pos: int) -> Option<(OrderByView, int)> {
    match text::word_at(src, pos, "ORDER"@) {
        Some(p) => match text::word_at(src, p, "BY"@) {
            Some(q) => match property_ref_at(src, q) {
                Some((r, t)) => {
                    let (direction, e) = sort_direction_at(src, t);
                    Some((OrderByView { alias: r.alias, property: r.property, direction }, e))
                },
                None => None,
            },
            None => None,
        },
        None => None,
    }
}

/// `LIMIT n`.
pub open spec fn limit_at(src: SourceView, pos: int) -> Option<(u64, int)> {
    match text::word_at(src, pos, "LIMIT"@) {
        Some(p) => match text::number_at(src, p, u64::MAX as int) {
            Some((n, e)) => Some((n as u64, e)),
            None => None,
        },
        None => None,
    }
}

/// Where a text stops following the grammar, in bytes.
pub open spec fn error_position(source: Seq<char>) -> int {
    let far = reach::furthest(SourceView { chars: source, comments: false });
    vstd::utf8::encode_utf8(source.take(far as int)).len() as int
}

/// What a text reads as: a query, or the position where it stops following
/// the grammar and what was expected of the clause that is wrong.
pub open spec fn query_of(source: Seq<char>) -> Result<QueryView, (int, Seq<char>)> {
    let src = SourceView { chars: source, comments: false };
    match text::word_at(src, 0, "MATCH"@) {
        None => Err((error_position(source), "expected MATCH"@)),
        Some(p) => match pattern_at(src, p) {
            None => Err((error_position(source), "expected a pattern"@)),
            Some((pattern, q)) => {
                let (where_conditions, r) = match where_clause_at(src, q) {
                    Some((conditions, r)) => (conditions, r),
                    None => (seq![], q),
                };
                match return_clause_at(src, r) {
                    None => Err((error_position(source), "expected a RETURN clause"@)),
                    Some((items, t)) => {
                        let (order_by, u) = match order_by_at(src, t) {
                            Some((order_by, u)) => (Some(order_by), u),
                            None => (None, t),
                        };
                        let (limit, v) = match limit_at(src, u) {
                            Some((limit, v)) => (Some(limit), v),
                            None => (None, u),
                        };
                        if text::skip_blank(src, v) == source.len() {
                            Ok(QueryView { pattern, where_conditions, returns: items, order_by, limit })
                        } else {
                            Err((error_position(source), "expected the end of the query"@))
                        }
                    },
                }
            },
        },
    }
}

pub(crate) fn parse_int(src: &Source, pos: usize) -> (r: Option<(i64, usize)>)
    requires
        src.wf(),
        pos <= src@.chars.len(),
    ensures
        text::parsed_plain(r, int_at(src@, pos as int), pos, src@),
{
    let p = text::skip_blank_exec(src, pos);
    let negative = p < src.chars.len() && src.chars[p] == '-';
    let d: usize = if negative {
        p + 1
    } else {
        p
    };
    match text::digits_at_exec(src, d) {
        Some(e) => {
            if negative {
                match text::decimal_exec(src, d, e, 0x8000_0000_0000_0000) {
                    Some(n) => {
                        if n == 0x8000_0000_0000_0000 {
                            Some((i64::MIN, e))
                        } else {
                            Some((-(n as i64), e))
                        }
                    },
                    None => None,
                }
            } else {
                match text::decimal_exec(src, d, e, 0x7fff_ffff_ffff_ffff) {
                    Some(n) => Some((n as i64, e)),
                    None => None,
                }
            }
        },
        None => None,
    }
}

pub(crate) fn parse_float(src: &Source, pos: usize) -> (r: Option<(String, usize)>)
    requires
        src.wf(),
        pos <= src@.chars.len(),
    ensures
        text::parsed(r, float_at(src@, pos as int), pos, src@),
{
    let p = text::skip_blank_exec(src, pos);
    let d: usize = if p < src.chars.len() && src.chars[p] == '-' {
        p + 1
    } else {
        p
    };
    match text::digits_at_exec(src, d) {
        Some(e) => {
            if e < src.chars.len() && src.chars[e] == '.' {
                match text::digits_at_exec(src, e + 1) {
                    Some(f) => Some((src.slice(p, f), f)),
                    None => None,
                }
            } else {
                None
            }
        },
        None => None,
    }
}

pub(crate) fn parse_literal(src: &Source, pos: usize) -> (r: Option<(Literal, usize)>)
    requires
        src.wf(),
        pos <= src@.chars.len(),
    ensures
        text::parsed(r, literal_at(src@, pos as int), pos, src@),
{
    proof {
        reveal_strlit("true");
        reveal_strlit("false");
    }
    if let Some((v, p)) = text::quoted_at_exec(src, pos) {
        return Some((Literal::String(v), p));
    }
    if let Some((v, p)) = parse_float(src, pos) {
        return Some((Literal::FloatText(v), p));
    }
    if let Some((v, p)) = parse_int(src, pos) {
        return Some((Literal::Int64(v), p));
    }
    if let Some(p) = text::word_at_exec(src, pos, "true") {
        return Some((Literal::Bool(true), p));
    }
    match text::word_at_exec(src, pos, "false") {
        Some(p) => Some((Literal::Bool(false), p)),
        None => None,
    }
}

pub(crate) fn parse_comparison_op(src: &Source, pos: usize) -> (r: Option<(ComparisonOp, usize)>)
    requires
        src.wf(),
        pos <= src@.chars.len(),
    ensures
        text::parsed_plain(r, op_at(src@, pos as int), pos, src@),
{
    proof {
        reveal_strlit("<>");
        reveal_strlit("<=");
        reveal_strlit(">=");
        reveal_strlit("=");
        reveal_strlit("<");
        reveal_strlit(">");
    }
    if let Some(p) = text::word_at_exec(src, pos, "<>") {
        return Some((ComparisonOp::Ne, p));
    }
    if let Some(p) = text::word_at_exec(src, pos, "<=") {
        return Some((ComparisonOp::Lte, p));
    }
    if let Some(p) = text::word_at_exec(src, pos, ">=") {
        return Some((ComparisonOp::Gte, p));
    }
    if let Some(p) = text::word_at_exec(src, pos, "=") {
        return Some((ComparisonOp::Eq, p));
    }
    if let Some(p) = text::word_at_exec(src, pos, "<") {
        return Some((ComparisonOp::Lt, p));
    }
    match text::word_at_exec(src, pos, ">") {
        Some(p) => Some((ComparisonOp::Gt, p)),
        None => None,
    }
}

pub(crate) fn parse_property_kv(src: &Source, pos: usize) -> (r: Option<(PropertyFilter, usize)>)
    requires
        src.wf(),
        pos <= src@.chars.len(),
    ensures
        text::parsed(r, property_kv_at(src@, pos as int), pos, src@),
{
    let (property, p) = match text::ident_at_exec(src, pos) {
        Some(x) => x,
        None => return None,
    };
    let q = match text::word_at_exec(src, p, ":") {
        Some(q) => q,
        None => return None,
    };
    match parse_literal(src, q) {
        Some((value, e)) => Some((PropertyFilter { property, op: ComparisonOp::Eq, value }, e)),
        None => None,
    }
}

pub(crate) fn parse_property_map(src: &Source, pos: usize) -> (r: Option<(Vec<PropertyFilter>, usize)>)
    requires
        src.wf(),
        pos <= src@.chars.len(),
    ensures
        text::parsed_list(r, property_map_at(src@, pos as int), pos, src@),
{
    let p = match text::word_at_exec(src, pos, "{") {
        Some(p) => p,
        None => return None,
    };
    let (first, q) = match parse_property_kv(src, p) {
        Some(x) => x,
        None => return None,
    };
    let ghost start = q as int;
    let mut filters: Vec<PropertyFilter> = Vec::new();
    let ghost head = seq![first@];
    filters.push(first);
    let mut cur: usize = q;
    assert(text::views(filters@) =~= head);
    assert(head + more_property_kvs_at(src@, start).0 =~= text::views(filters@)
        + more_property_kvs_at(src@, cur as int).0);
    loop
        invariant
            src.wf(),
            pos < cur <= src@.chars.len(),
            head + more_property_kvs_at(src@, start).0 == text::views(filters@)
                + more_property_kvs_at(src@, cur as int).0,
            more_property_kvs_at(src@, start).1 == more_property_kvs_at(src@, cur as int).1,
        ensures
            pos < cur <= src@.chars.len(),
            head + more_property_kvs_at(src@, start).0 == text::views(filters@),
            more_property_kvs_at(src@, start).1 == cur,
        decreases src@.chars.len() - cur,
    {
        let next = match text::word_at_exec(src, cur, ",") {
            Some(n) => parse_property_kv(src, n),
            None => None,
        };
        match next {
            Some((kv, e)) => {
                proof {
                    text::lemma_views_push(filters@, kv);
                    let rest = more_property_kvs_at(src@, e as int).0;
                    assert(text::views(filters@) + (seq![kv@] + rest) =~= text::views(
                        filters@.push(kv),
                    ) + rest);
                }
                filters.push(kv);
                cur = e;
            },
            None => {
                assert(text::views(filters@) + Seq::<PropertyFilterView>::empty() =~= text::views(
                    filters@,
                ));
                break;
            },
        }
    }
    match text::word_at_exec(src, cur, "}") {
        Some(e) => Some((filters, e)),
        None => None,
    }
}

pub(crate) fn parse_type_suffix(src: &Source, pos: usize) -> (r: (Option<String>, usize))
    requires
        src.wf(),
        pos <= src@.chars.len(),
    ensures
        (text::option_view(r.0), r.1 as int) == type_suffix_at(src@, pos as int),
        pos <= r.1 <= src@.chars.len(),
{
    match text::word_at_exec(src, pos, ":") {
        Some(p) => match text::ident_at_exec(src, p) {
            Some((name, e)) => (Some(name), e),
            None => (None, pos),
        },
        None => (None, pos),
    }
}

pub(crate) fn parse_node_pattern(src: &Source, pos: usize) -> (r: Option<(NodePattern, usize)>)
    requires
        src.wf(),
        pos <= src@.chars.len(),
    ensures
        text::parsed(r, node_pattern_at(src@, pos as int), pos, src@),
{
    let p = match text::word_at_exec(src, pos, "(") {
        Some(p) => p,
        None => return None,
    };
    let (alias, q) = match text::ident_at_exec(src, p) {
        Some(x) => x,
        None => return None,
    };
    let (suffix, r) = parse_type_suffix(src, q);
    let label = match suffix {
        Some(name) => Some(Label(name)),
        None => None,
    };
    let (property_filters, t) = match parse_property_map(src, r) {
        Some(x) => x,
        None => {
            let none: Vec<PropertyFilter> = Vec::new();
            assert(text::views(none@) =~= Seq::<PropertyFilterView>::empty());
            (none, r)
        },
    };
    match text::word_at_exec(src, t, ")") {
        Some(e) => Some((NodePattern { alias, label, property_filters }, e)),
        None => None,
    }
}

pub(crate) fn parse_hop_range(src: &Source, pos: usize) -> (r: Option<(HopRange, usize)>)
    requires
        src.wf(),
        pos <= src@.chars.len(),
    ensures
        text::parsed_plain(r, hop_range_at(src@, pos as int), pos, src@),
{
    let p = match text::word_at_exec(src, pos, "*") {
        Some(p) => p,
        None => return None,
    };
    let (min, q) = match text::number_at_exec(src, p, u32::MAX as u64) {
        Some(x) => x,
        None => return None,
    };
    let r = match text::word_at_exec(src, q, "..") {
        Some(r) => r,
        None => return None,
    };
    match text::number_at_exec(src, r, u32::MAX as u64) {
        Some((max, e)) => Some((HopRange { min: min as u32, max: max as u32 }, e)),
        None => None,
    }
}

pub(crate) struct EdgeDetail {
    pub(crate) alias: Option<String>,
    pub(crate) edge_type: Option<String>,
    pub(crate) hops: HopRange,
}

impl View for EdgeDetail {
    type V = EdgeDetailView;

    closed spec fn view(&self) -> EdgeDetailView {
        EdgeDetailView {
            alias: text::option_view(self.alias),
            edge_type: text::option_view(self.edge_type),
            hops: self.hops,
        }
    }
}

pub(crate) fn parse_edge_detail(src: &Source, pos: usize) -> (r: Option<(EdgeDetail, usize)>)
    requires
        src.wf(),
        pos <= src@.chars.len(),
    ensures
        text::parsed(r, edge_detail_at(src@, pos as int), pos, src@),
{
    proof {
        reveal_strlit("[");
    }
    let p = match text::word_at_exec(src, pos, "[") {
        Some(p) => p,
        None => return None,
    };
    let (alias, q) = match text::ident_at_exec(src, p) {
        Some((alias, q)) => (Some(alias), q),
        None => (None, p),
    };
    let (edge_type, r) = parse_type_suffix(src, q);
    let (hops, t) = match parse_hop_range(src, r) {
        Some(x) => x,
        None => (HopRange { min: 1, max: 1 }, r),
    };
    match text::word_at_exec(src, t, "]") {
        Some(e) => Some((EdgeDetail { alias, edge_type, hops }, e)),
        None => None,
    }
}

pub(crate) fn parse_arrow(src: &Source, pos: usize, open: &str, close: &str, direction: Direction) -> (r: Option<
    (EdgePattern, usize),
>)
    requires
        src.wf(),
        pos <= src@.chars.len(),
        open@.len() > 0,
    ensures
        text::parsed(r, arrow_at(src@, pos as int, open@, close@, direction), pos, src@),
{
    let p = match text::word_at_exec(src, pos, open) {
        Some(p) => p,
        None => return None,
    };
    let (detail, q) = match parse_edge_detail(src, p) {
        Some(x) => x,
        None => (EdgeDetail { alias: None, edge_type: None, hops: HopRange { min: 1, max: 1 } }, p),
    };
    match text::word_at_exec(src, q, close) {
        Some(e) => {
            let edge_type = match detail.edge_type {
                Some(name) => Some(EdgeType(name)),
                None => None,
            };
            Some((EdgePattern { alias: detail.alias, edge_type, direction, hops: detail.hops }, e))
        },
        None => None,
    }
}

pub(crate) fn parse_edge_pattern(src: &Source, pos: usize) -> (r: Option<(EdgePattern, usize)>)
    requires
        src.wf(),
        pos <= src@.chars.len(),
    ensures
        text::parsed(r, edge_pattern_at(src@, pos as int), pos, src@),
{
    proof {
        reveal_strlit("-");
        reveal_strlit("<-");
    }
    match parse_arrow(src, pos, "-", "->", Direction::Outgoing) {
        Some(r) => Some(r),
        None => parse_arrow(src, pos, "<-", "-", Direction::Incoming),
    }
}

pub(crate) fn parse_pattern(src: &Source, pos: usize) -> (r: Option<(Pattern, usize)>)
    requires
        src.wf(),
        pos <= src@.chars.len(),
    ensures
        text::parsed(r, pattern_at(src@, pos as int), pos, src@),
{
    let (first, q) = match parse_node_pattern(src, pos) {
        Some(x) => x,
        None => return None,
    };
    let ghost start = q as int;
    let ghost head = seq![PatternStepView::Node(first@)];
    let mut steps: Vec<PatternStep> = Vec::new();
    steps.push(PatternStep::Node(first));
    let mut cur: usize = q;
    assert(text::views(steps@) =~= head);
    loop
        invariant
            src.wf(),
            pos < cur <= src@.chars.len(),
            head + more_steps_at(src@, start).0 == text::views(steps@) + more_steps_at(
                src@,
                cur as int,
            ).0,
            more_steps_at(src@, start).1 == more_steps_at(src@, cur as int).1,
        ensures
            pos < cur <= src@.chars.len(),
            head + more_steps_at(src@, start).0 == text::views(steps@),
            more_steps_at(src@, start).1 == cur,
        decreases src@.chars.len() - cur,
    {
        let next = match parse_edge_pattern(src, cur) {
            Some((edge, n)) => match parse_node_pattern(src, n) {
                Some((node, e)) => Some((edge, node, e)),
                None => None,
            },
            None => None,
        };
        match next {
            Some((edge, node, e)) => {
                proof {
                    let rest = more_steps_at(src@, e as int).0;
                    let edge_step = PatternStep::Edge(edge);
                    let node_step = PatternStep::Node(node);
                    text::lemma_views_push(steps@, edge_step);
                    text::lemma_views_push(steps@.push(edge_step), node_step);
                    assert(text::views(steps@) + (seq![edge_step@, node_step@] + rest)
                        =~= text::views(steps@.push(edge_step).push(node_step)) + rest);
                }
                steps.push(PatternStep::Edge(edge));
                steps.push(PatternStep::Node(node));
                cur = e;
            },
            None => {
                assert(text::views(steps@) + Seq::<PatternStepView>::empty() =~= text::views(
                    steps@,
                ));
                break;
            },
        }
    }
    Some((Pattern { steps }, cur))
}

pub(crate) fn parse_property_ref(src: &Source, pos: usize) -> (r: Option<(PropertyRef, usize)>)
    requires
        src.wf(),
        pos <= src@.chars.len(),
    ensures
        text::parsed(r, property_ref_at(src@, pos as int), pos, src@),
{
    let (alias, p) = match text::ident_at_exec(src, pos) {
        Some(x) => x,
        None => return None,
    };
    let q = match text::word_at_exec(src, p, ".") {
        Some(q) => q,
        None => return None,
    };
    match text::ident_at_exec(src, q) {
        Some((property, e)) => Some((PropertyRef { alias, property }, e)),
        None => None,
    }
}

pub(crate) fn parse_property_property_comparison(src: &Source, pos: usize) -> (r: Option<
    (WhereCondition, usize),
>)
    requires
        src.wf(),
        pos <= src@.chars.len(),
    ensures
        text::parsed(r, property_comparison_at(src@, pos as int), pos, src@),
{
    let (left, p) = match parse_property_ref(src, pos) {
        Some(x) => x,
        None => return None,
    };
    let (op, q) = match parse_comparison_op(src, p) {
        Some(x) => x,
        None => return None,
    };
    match parse_property_ref(src, q) {
        Some((right, e)) => Some((WhereCondition::PropertyComparison { left, op, right }, e)),
        None => None,
    }
}

pub(crate) fn parse_property_condition(src: &Source, pos: usize) -> (r: Option<(WhereCondition, usize)>)
    requires
        src.wf(),
        pos <= src@.chars.len(),
    ensures
        text::parsed(r, property_condition_at(src@, pos as int), pos, src@),
{
    let (left, p) = match parse_property_ref(src, pos) {
        Some(x) => x,
        None => return None,
    };
    let (op, q) = match parse_comparison_op(src, p) {
        Some(x) => x,
        None => return None,
    };
    match parse_literal(src, q) {
        Some((value, e)) => Some(
            (
                WhereCondition::Property(
                    left.alias,
                    PropertyFilter { property: left.property, op, value },
                ),
                e,
            ),
        ),
        None => None,
    }
}

pub(crate) fn parse_alias_comparison(src: &Source, pos: usize) -> (r: Option<(WhereCondition, usize)>)
    requires
        src.wf(),
        pos <= src@.chars.len(),
    ensures
        text::parsed(r, alias_comparison_at(src@, pos as int), pos, src@),
{
    let (left, p) = match text::ident_at_exec(src, pos) {
        Some(x) => x,
        None => return None,
    };
    let (op, q) = match parse_comparison_op(src, p) {
        Some(x) => x,
        None => return None,
    };
    match text::ident_at_exec(src, q) {
        Some((right, e)) => Some((WhereCondition::AliasComparison { left, op, right }, e)),
        None => None,
    }
}

pub(crate) fn parse_not_exists_head(src: &Source, pos: usize) -> (r: Option<(Pattern, usize)>)
    requires
        src.wf(),
        pos <= src@.chars.len(),
    ensures
        text::parsed(r, not_exists_head_at(src@, pos as int), pos, src@),
{
    let p = match text::word_at_exec(src, pos, "NOT") {
        Some(p) => p,
        None => return None,
    };
    let q = match text::word_at_exec(src, p, "EXISTS") {
        Some(q) => q,
        None => return None,
    };
    let r = match text::word_at_exec(src, q, "{") {
        Some(r) => r,
        None => return None,
    };
    match text::word_at_exec(src, r, "MATCH") {
        Some(t) => parse_pattern(src, t),
        None => None,
    }
}

pub(crate) fn parse_not_exists_clause(src: &Source, pos: usize) -> (r: Option<(WhereCondition, usize)>)
    requires
        src.wf(),
        pos <= src@.chars.len(),
    ensures
        text::parsed(r, not_exists_at(src@, pos as int), pos, src@),
    decreases src@.chars.len() - pos, 0int,
{
    let (pattern, p) = match parse_not_exists_head(src, pos) {
        Some(x) => x,
        None => return None,
    };
    let (where_conditions, q) = match parse_where_clause(src, p) {
        Some(x) => x,
        None => {
            let none: Vec<WhereCondition> = Vec::new();
            assert(text::views(none@) =~= Seq::<WhereConditionView>::empty());
            (none, p)
        },
    };
    match text::word_at_exec(src, q, "}") {
        Some(e) => {
            let sub = ExistsSubquery { pattern, where_conditions };
            proof {
                crate::dsl::lemma_not_exists_view(sub);
            }
            Some((WhereCondition::NotExists(sub), e))
        },
        None => None,
    }
}

pub(crate) fn parse_where_condition(src: &Source, pos: usize) -> (r: Option<(WhereCondition, usize)>)
    requires
        src.wf(),
        pos <= src@.chars.len(),
    ensures
        text::parsed(r, where_condition_at(src@, pos as int), pos, src@),
    decreases src@.chars.len() - pos, 1int,
{
    if let Some(r) = parse_not_exists_clause(src, pos) {
        return Some(r);
    }
    if let Some(r) = parse_property_property_comparison(src, pos) {
        return Some(r);
    }
    if let Some(r) = parse_property_condition(src, pos) {
        return Some(r);
    }
    parse_alias_comparison(src, pos)
}

pub(crate) fn parse_where_clause(src: &Source, pos: usize) -> (r: Option<(Vec<WhereCondition>, usize)>)
    requires
        src.wf(),
        pos <= src@.chars.len(),
    ensures
        text::parsed_list(r, where_clause_at(src@, pos as int), pos, src@),
    decreases src@.chars.len() - pos, 3int,
{
    let p = match text::word_at_exec(src, pos, "WHERE") {
        Some(p) => p,
        None => return None,
    };
    let (first, q) = match parse_where_condition(src, p) {
        Some(x) => x,
        None => return None,
    };
    let ghost start = q as int;
    let ghost head = seq![first@];
    let mut conditions: Vec<WhereCondition> = Vec::new();
    conditions.push(first);
    let mut cur: usize = q;
    assert(text::views(conditions@) =~= head);
    loop
        invariant
            src.wf(),
            pos < cur <= src@.chars.len(),
            head + more_conditions_at(src@, start).0 == text::views(conditions@)
                + more_conditions_at(src@, cur as int).0,
            more_conditions_at(src@, start).1 == more_conditions_at(src@, cur as int).1,
        ensures
            pos < cur <= src@.chars.len(),
            head + more_conditions_at(src@, start).0 == text::views(conditions@),
            more_conditions_at(src@, start).1 == cur,
        decreases src@.chars.len() - cur,
    {
        let next = match text::word_at_exec(src, cur, "AND") {
            Some(n) => parse_where_condition(src, n),
            None => None,
        };
        match next {
            Some((condition, e)) => {
                proof {
                    text::lemma_views_push(conditions@, condition);
                    let rest = more_conditions_at(src@, e as int).0;
                    assert(text::views(conditions@) + (seq![condition@] + rest) =~= text::views(
                        conditions@.push(condition),
                    ) + rest);
                }
                conditions.push(condition);
                cur = e;
            },
            None => {
                assert(text::views(conditions@) + Seq::<WhereConditionView>::empty()
                    =~= text::views(conditions@));
                break;
            },
        }
    }
    Some((conditions, cur))
}

pub(crate) fn parse_return_item(src: &Source, pos: usize) -> (r: Option<(ReturnItem, usize)>)
    requires
        src.wf(),
        pos <= src@.chars.len(),
    ensures
        text::parsed(r, return_item_at(src@, pos as int), pos, src@),
{
    let (alias, p) = match text::ident_at_exec(src, pos) {
        Some(x) => x,
        None => return None,
    };
    match text::word_at_exec(src, p, ".") {
        Some(q) => match text::ident_at_exec(src, q) {
            Some((property, e)) => Some((ReturnItem { alias, property: Some(property) }, e)),
            None => Some((ReturnItem { alias, property: None }, p)),
        },
        None => Some((ReturnItem { alias, property: None }, p)),
    }
}

pub(crate) fn parse_return_clause(src: &Source, pos: usize) -> (r: Option<(Vec<ReturnItem>, usize)>)
    requires
        src.wf(),
        pos <= src@.chars.len(),
    ensures
        text::parsed_list(r, return_clause_at(src@, pos as int), pos, src@),
{
    let p = match text::word_at_exec(src, pos, "RETURN") {
        Some(p) => p,
        None => return None,
    };
    let (first, q) = match parse_return_item(src, p) {
        Some(x) => x,
        None => return None,
    };
    let ghost start = q as int;
    let ghost head = seq![first@];
    let mut items: Vec<ReturnItem> = Vec::new();
    items.push(first);
    let mut cur: usize = q;
    assert(text::views(items@) =~= head);
    loop
        invariant
            src.wf(),
            pos < cur <= src@.chars.len(),
            head + more_return_items_at(src@, start).0 == text::views(items@)
                + more_return_items_at(src@, cur as int).0,
            more_return_items_at(src@, start).1 == more_return_items_at(src@, cur as int).1,
        ensures
            pos < cur <= src@.chars.len(),
            head + more_return_items_at(src@, start).0 == text::views(items@),
            more_return_items_at(src@, start).1 == cur,
        decreases src@.chars.len() - cur,
    {
        let next = match text::word_at_exec(src, cur, ",") {
            Some(n) => parse_return_item(src, n),
            None => None,
        };
        match next {
            Some((item, e)) => {
                proof {
                    text::lemma_views_push(items@, item);
                    let rest = more_return_items_at(src@, e as int).0;
                    assert(text::views(items@) + (seq![item@] + rest) =~= text::views(
                        items@.push(item),
                    ) + rest);
                }
                items.push(item);
                cur = e;
            },
            None => {
                assert(text::views(items@) + Seq::<ReturnItemView>::empty() =~= text::views(
                    items@,
                ));
                break;
            },
        }
    }
    Some((items, cur))
}

pub(crate) fn parse_order_by_clause(src: &Source, pos: usize) -> (r: Option<(OrderBy, usize)>)
    requires
        src.wf(),
        pos <= src@.chars.len(),
    ensures
        text::parsed(r, order_by_at(src@, pos as int), pos, src@),
{
    let p = match text::word_at_exec(src, pos, "ORDER") {
        Some(p) => p,
        None => return None,
    };
    let q = match text::word_at_exec(src, p, "BY") {
        Some(q) => q,
        None => return None,
    };
    let (r, t) = match parse_property_ref(src, q) {
        Some(x) => x,
        None => return None,
    };
    let (direction, e) = match text::word_at_exec(src, t, "ASC") {
        Some(e) => (SortDirection::Asc, e),
        None => match text::word_at_exec(src, t, "DESC") {
            Some(e) => (SortDirection::Desc, e),
            None => (SortDirection::Asc, t),
        },
    };
    Some((OrderBy { alias: r.alias, property: r.property, direction }, e))
}

pub(crate) fn parse_limit_clause(src: &Source, pos: usize) -> (r: Option<(u64, usize)>)
    requires
        src.wf(),
        pos <= src@.chars.len(),
    ensures
        text::parsed_plain(r, limit_at(src@, pos as int), pos, src@),
{
    match text::word_at_exec(src, pos, "LIMIT") {
        Some(p) => text::number_at_exec(src, p, u64::MAX),
        None => None,
    }
}

/// The error of a text that does not follow the grammar.
fn syntax_error(src: &Source, message: &str) -> (r: DslError)
    requires
        src.wf(),
        !src@.comments,
    ensures
        r matches DslError::Syntax { pos, message: m } && pos == error_position(src@.chars) && m@
            == message@,
{
    let far = reach::find_furthest(src);
    let head = src.slice(0, far);
    assert(src@.chars.subrange(0, far as int) =~= src@.chars.take(far as int));
    DslError::Syntax { pos: head.as_str().as_bytes().len(), message: message.to_owned() }
}

/// Reads query texts.
pub trait Parser {
    fn parse(&self, source: &str) -> Result<Query, DslError>;
}

/// The parser of the query language.
pub struct PestParser;

impl Parser for PestParser {
    /// Reads a query. A text that does not follow the grammar is refused with
    /// the position where it stops following it.
    fn parse(&self, source: &str) -> (r: Result<Query, DslError>)
        ensures
            match r {
                Ok(query) => query_of(source@) == Ok::<QueryView, (int, Seq<char>)>(query@),
                Err(DslError::Syntax { pos, message }) => query_of(source@) == Err::<
                    QueryView,
                    (int, Seq<char>),
                >((pos as int, message@)),
            },
    {
        let src = Source::new(source, false);
        let p = match text::word_at_exec(&src, 0, "MATCH") {
            Some(p) => p,
            None => return Err(syntax_error(&src, "expected MATCH")),
        };
        let (pattern, q) = match parse_pattern(&src, p) {
            Some(x) => x,
            None => return Err(syntax_error(&src, "expected a pattern")),
        };
        let (where_conditions, r) = match parse_where_clause(&src, q) {
            Some(x) => x,
            None => {
                let none: Vec<WhereCondition> = Vec::new();
                assert(text::views(none@) =~= Seq::<WhereConditionView>::empty());
                (none, q)
            },
        };
        let (items, t) = match parse_return_clause(&src, r) {
            Some(x) => x,
            None => return Err(syntax_error(&src, "expected a RETURN clause")),
        };
        let (order_by, u) = match parse_order_by_clause(&src, t) {
            Some((order_by, u)) => (Some(order_by), u),
            None => (None, t),
        };
        let (limit, v) = match parse_limit_clause(&src, u) {
            Some((limit, v)) => (Some(limit), v),
            None => (None, u),
        };
        if text::skip_blank_exec(&src, v) == src.chars.len() {
            Ok(Query { pattern, where_conditions, returns: items, order_by, limit })
        } else {
            Err(syntax_error(&src, "expected the end of the query"))
        }
    }
}

} // verus!
