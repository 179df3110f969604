//! How far a text follows the grammar of the query language.
//!
//! A rule that is tried at a position reads some tokens there, and misses
//! another one. The furthest token that is missed while a text is read is where
//! a syntax error is reported. Each function here goes with a rule of the
//! grammar: it gives the furthest token that is missed while the rule is
//! tried, whether the rule reads in the end or not, and 0 where none is.
use crate::dsl::parser;
use crate::dsl::Direction;
use crate::text;
use crate::text::{Source, SourceView};
use vstd::prelude::*;

verus! {

pub open spec fn later(a: nat, b: nat) -> nat {
    if a < b {
        b
    } else {
        a
    }
}

/// Where a token is missed: behind the blank space.
pub open spec fn missed(src: SourceView, pos: int) -> nat {
    text::skip_blank(src, pos) as nat
}

/// A token that is missed at `pos`, unless it was read.
pub open spec fn unless(read: bool, src: SourceView, pos: int) -> nat {
    if read {
        0
    } else {
        missed(src, pos)
    }
}

pub open spec fn word_reach(src: SourceView, pos: int, word: Seq<char>) -> nat {
    unless(text::word_at(src, pos, word) is Some, src, pos)
}

fn later_exec(a: usize, b: usize) -> (r: usize)
    ensures
        r == later(a as nat, b as nat),
{
    if a < b {
        b
    } else {
        a
    }
}

fn unless_exec(read: bool, src: &Source, pos: usize) -> (r: usize)
    requires
        src.wf(),
        pos <= src@.chars.len(),
    ensures
        r == unless(read, src@, pos as int),
        r <= src@.chars.len(),
{
    if read {
        0
    } else {
        text::skip_blank_exec(src, pos)
    }
}

fn word_reach_exec(src: &Source, pos: usize, word: &str) -> (r: usize)
    requires
        src.wf(),
        pos <= src@.chars.len(),
    ensures
        r == word_reach(src@, pos as int, word@),
        r <= src@.chars.len(),
{
    unless_exec(text::word_at_exec(src, pos, word).is_some(), src, pos)
}

/// `name: literal`.
pub open spec fn property_kv_reach(src: SourceView, pos: int) -> nat {
    match text::ident_at(src, pos) {
        Some((_, p)) => match text::word_at(src, p, ":"@) {
            Some(q) => unless(parser::literal_at(src, q) is Some, src, q),
            None => missed(src, p),
        },
        None => missed(src, pos),
    }
}

fn property_kv_reach_exec(src: &Source, pos: usize) -> (r: usize)
    requires
        src.wf(),
        pos <= src@.chars.len(),
    ensures
        r == property_kv_reach(src@, pos as int),
        r <= src@.chars.len(),
{
    match text::ident_at_exec(src, pos) {
        Some((_, p)) => match text::word_at_exec(src, p, ":") {
            Some(q) => unless_exec(parser::parse_literal(src, q).is_some(), src, q),
            None => text::skip_blank_exec(src, p),
        },
        None => text::skip_blank_exec(src, pos),
    }
}

/// `(, name: literal)*`.
pub open spec fn more_property_kvs_reach(src: SourceView, pos: int) -> nat
    decreases src.chars.len() - pos,
{
    match text::word_at(src, pos, ","@) {
        Some(p) => match parser::property_kv_at(src, p) {
            Some((_, q)) => if pos < q <= src.chars.len() {
                later(property_kv_reach(src, p), more_property_kvs_reach(src, q))
            } else {
                0
            },
            None => property_kv_reach(src, p),
        },
        None => missed(src, pos),
    }
}

fn more_property_kvs_reach_exec(src: &Source, pos: usize) -> (r: usize)
    requires
        src.wf(),
        pos <= src@.chars.len(),
    ensures
        r == more_property_kvs_reach(src@, pos as int),
        r <= src@.chars.len(),
{
    let mut far: usize = 0;
    let mut cur: usize = pos;
    loop
        invariant
            src.wf(),
            pos <= cur <= src@.chars.len(),
            far <= src@.chars.len(),
            later(far as nat, more_property_kvs_reach(src@, cur as int)) == more_property_kvs_reach(
                src@,
                pos as int,
            ),
        decreases src@.chars.len() - cur,
    {
        let p = match text::word_at_exec(src, cur, ",") {
            Some(p) => p,
            None => return later_exec(far, text::skip_blank_exec(src, cur)),
        };
        far = later_exec(far, property_kv_reach_exec(src, p));
        match parser::parse_property_kv(src, p) {
            Some((_, q)) => {
                cur = q;
            },
            None => return far,
        }
    }
}

/// `{ name: literal, .. }`.
pub open spec fn property_map_reach(src: SourceView, pos: int) -> nat {
    match text::word_at(src, pos, "{"@) {
        Some(p) => later(
            property_kv_reach(src, p),
            match parser::property_kv_at(src, p) {
                Some((_, q)) => later(
                    more_property_kvs_reach(src, q),
                    word_reach(src, parser::more_property_kvs_at(src, q).1, "}"@),
                ),
                None => 0,
            },
        ),
        None => missed(src, pos),
    }
}

/// Where a list of further properties ends.
fn after_property_kvs(src: &Source, pos: usize) -> (r: usize)
    requires
        src.wf(),
        pos <= src@.chars.len(),
    ensures
        r == parser::more_property_kvs_at(src@, pos as int).1,
        r <= src@.chars.len(),
{
    let mut cur: usize = pos;
    loop
        invariant
            src.wf(),
            pos <= cur <= src@.chars.len(),
            parser::more_property_kvs_at(src@, cur as int).1 == parser::more_property_kvs_at(
                src@,
                pos as int,
            ).1,
        decreases src@.chars.len() - cur,
    {
        let next = match text::word_at_exec(src, cur, ",") {
            Some(p) => parser::parse_property_kv(src, p),
            None => None,
        };
        match next {
            Some((_, q)) => {
                cur = q;
            },
            None => return cur,
        }
    }
}

fn property_map_reach_exec(src: &Source, pos: usize) -> (r: usize)
    requires
        src.wf(),
        pos <= src@.chars.len(),
    ensures
        r == property_map_reach(src@, pos as int),
        r <= src@.chars.len(),
{
    match text::word_at_exec(src, pos, "{") {
        Some(p) => later_exec(
            property_kv_reach_exec(src, p),
            match parser::parse_property_kv(src, p) {
                Some((_, q)) => later_exec(
                    more_property_kvs_reach_exec(src, q),
                    word_reach_exec(src, after_property_kvs(src, q), "}"),
                ),
                None => 0,
            },
        ),
        None => text::skip_blank_exec(src, pos),
    }
}

/// `(: name)?`.
pub open spec fn type_suffix_reach(src: SourceView, pos: int) -> nat {
    match text::word_at(src, pos, ":"@) {
        Some(p) => unless(text::ident_at(src, p) is Some, src, p),
        None => missed(src, pos),
    }
}

fn type_suffix_reach_exec(src: &Source, pos: usize) -> (r: usize)
    requires
        src.wf(),
        pos <= src@.chars.len(),
    ensures
        r == type_suffix_reach(src@, pos as int),
        r <= src@.chars.len(),
{
    match text::word_at_exec(src, pos, ":") {
        Some(p) => unless_exec(text::ident_at_exec(src, p).is_some(), src, p),
        None => text::skip_blank_exec(src, pos),
    }
}

/// `( alias (:Label)? ({..})? )`.
pub open spec fn node_pattern_reach(src: SourceView, pos: int) -> nat {
    match text::word_at(src, pos, "("@) {
        Some(p) => match text::ident_at(src, p) {
            Some((_, q)) => {
                let r = parser::type_suffix_at(src, q).1;
                later(type_suffix_reach(src, q), {
                    let t = match parser::property_map_at(src, r) {
                        Some((_, t)) => t,
                        None => r,
                    };
                    later(property_map_reach(src, r), word_reach(src, t, ")"@))
                })
            },
            None => missed(src, p),
        },
        None => missed(src, pos),
    }
}

fn node_pattern_reach_exec(src: &Source, pos: usize) -> (r: usize)
    requires
        src.wf(),
        pos <= src@.chars.len(),
    ensures
        r == node_pattern_reach(src@, pos as int),
        r <= src@.chars.len(),
{
    match text::word_at_exec(src, pos, "(") {
        Some(p) => match text::ident_at_exec(src, p) {
            Some((_, q)) => {
                let r: usize = parser::parse_type_suffix(src, q).1;
                later_exec(type_suffix_reach_exec(src, q), {
                    let t: usize = match parser::parse_property_map(src, r) {
                        Some((_, t)) => t,
                        None => r,
                    };
                    later_exec(property_map_reach_exec(src, r), word_reach_exec(src, t, ")"))
                })
            },
            None => text::skip_blank_exec(src, p),
        },
        None => text::skip_blank_exec(src, pos),
    }
}

/// `* min .. max`.
pub open spec fn hop_range_reach(src: SourceView, pos: int) -> nat {
    match text::word_at(src, pos, "*"@) {
        Some(p) => match text::number_at(src, p, u32::MAX as int) {
            Some((_, q)) => match text::word_at(src, q, ".."@) {
                Some(r) => unless(text::number_at(src, r, u32::MAX as int) is Some, src, r),
                None => missed(src, q),
            },
            None => missed(src, p),
        },
        None => missed(src, pos),
    }
}

fn hop_range_reach_exec(src: &Source, pos: usize) -> (r: usize)
    requires
        src.wf(),
        pos <= src@.chars.len(),
    ensures
        r == hop_range_reach(src@, pos as int),
        r <= src@.chars.len(),
{
    match text::word_at_exec(src, pos, "*") {
        Some(p) => match text::number_at_exec(src, p, u32::MAX as u64) {
            Some((_, q)) => match text::word_at_exec(src, q, "..") {
                Some(r) => unless_exec(
                    text::number_at_exec(src, r, u32::MAX as u64).is_some(),
                    src,
                    r,
                ),
                None => text::skip_blank_exec(src, q),
            },
            None => text::skip_blank_exec(src, p),
        },
        None => text::skip_blank_exec(src, pos),
    }
}

/// `[ alias? (:TYPE)? (*min..max)? ]`.
pub open spec fn edge_detail_reach(src: SourceView, pos: int) -> nat {
    match text::word_at(src, pos, "["@) {
        Some(p) => {
            let q = match text::ident_at(src, p) {
                Some((_, q)) => q,
                None => p,
            };
            later(unless(text::ident_at(src, p) is Some, src, p), {
                let r = parser::type_suffix_at(src, q).1;
                later(type_suffix_reach(src, q), {
                    let t = match parser::hop_range_at(src, r) {
                        Some((_, t)) => t,
                        None => r,
                    };
                    later(hop_range_reach(src, r), word_reach(src, t, "]"@))
                })
            })
        },
        None => missed(src, pos),
    }
}

fn edge_detail_reach_exec(src: &Source, pos: usize) -> (r: usize)
    requires
        src.wf(),
        pos <= src@.chars.len(),
    ensures
        r == edge_detail_reach(src@, pos as int),
        r <= src@.chars.len(),
{
    match text::word_at_exec(src, pos, "[") {
        Some(p) => {
            let q: usize = match text::ident_at_exec(src, p) {
                Some((_, q)) => q,
                None => p,
            };
            later_exec(unless_exec(text::ident_at_exec(src, p).is_some(), src, p), {
                let r: usize = parser::parse_type_suffix(src, q).1;
                later_exec(type_suffix_reach_exec(src, q), {
                    let t: usize = match parser::parse_hop_range(src, r) {
                        Some((_, t)) => t,
                        None => r,
                    };
                    later_exec(hop_range_reach_exec(src, r), word_reach_exec(src, t, "]"))
                })
            })
        },
        None => text::skip_blank_exec(src, pos),
    }
}

/// An edge that opens with `open` and closes with `close`.
pub open spec fn arrow_reach(
    src: SourceView,
    pos: int,
    open: Seq<char>,
    close: Seq<char>,
) -> nat {
    match text::word_at(src, pos, open) {
        Some(p) => later(
            edge_detail_reach(src, p),
            word_reach(src, parser::optional_detail_at(src, p).1, close),
        ),
        None => missed(src, pos),
    }
}

fn arrow_reach_exec(src: &Source, pos: usize, open: &str, close: &str) -> (r: usize)
    requires
        src.wf(),
        pos <= src@.chars.len(),
    ensures
        r == arrow_reach(src@, pos as int, open@, close@),
        r <= src@.chars.len(),
{
    match text::word_at_exec(src, pos, open) {
        Some(p) => {
            let q: usize = match parser::parse_edge_detail(src, p) {
                Some((_, q)) => q,
                None => p,
            };
            later_exec(edge_detail_reach_exec(src, p), word_reach_exec(src, q, close))
        },
        None => text::skip_blank_exec(src, pos),
    }
}

/// `-[..]->` or `<-[..]-`, the brackets optional.
pub open spec fn edge_pattern_reach(src: SourceView, pos: int) -> nat {
    match parser::arrow_at(src, pos, "-"@, "->"@, Direction::Outgoing) {
        Some(_) => arrow_reach(src, pos, "-"@, "->"@),
        None => later(
            arrow_reach(src, pos, "-"@, "->"@),
            arrow_reach(src, pos, "<-"@, "-"@),
        ),
    }
}

fn edge_pattern_reach_exec(src: &Source, pos: usize) -> (r: usize)
    requires
        src.wf(),
        pos <= src@.chars.len(),
    ensures
        r == edge_pattern_reach(src@, pos as int),
        r <= src@.chars.len(),
{
    proof {
        reveal_strlit("-");
    }
    let outgoing = arrow_reach_exec(src, pos, "-", "->");
    match parser::parse_arrow(src, pos, "-", "->", Direction::Outgoing) {
        Some(_) => outgoing,
        None => later_exec(outgoing, arrow_reach_exec(src, pos, "<-", "-")),
    }
}

/// `(edge node)*`.
pub open spec fn more_steps_reach(src: SourceView, pos: int) -> nat
    decreases src.chars.len() - pos,
{
    match parser::edge_pattern_at(src, pos) {
        Some((_, p)) => match parser::node_pattern_at(src, p) {
            Some((_, q)) => if pos < q <= src.chars.len() {
                later(
                    later(edge_pattern_reach(src, pos), node_pattern_reach(src, p)),
                    more_steps_reach(src, q),
                )
            } else {
                0
            },
            None => later(edge_pattern_reach(src, pos), node_pattern_reach(src, p)),
        },
        None => edge_pattern_reach(src, pos),
    }
}

fn more_steps_reach_exec(src: &Source, pos: usize) -> (r: usize)
    requires
        src.wf(),
        pos <= src@.chars.len(),
    ensures
        r == more_steps_reach(src@, pos as int),
        r <= src@.chars.len(),
{
    let mut far: usize = 0;
    let mut cur: usize = pos;
    loop
        invariant
            src.wf(),
            pos <= cur <= src@.chars.len(),
            far <= src@.chars.len(),
            later(far as nat, more_steps_reach(src@, cur as int)) == more_steps_reach(
                src@,
                pos as int,
            ),
        decreases src@.chars.len() - cur,
    {
        far = later_exec(far, edge_pattern_reach_exec(src, cur));
        let p = match parser::parse_edge_pattern(src, cur) {
            Some((_, p)) => p,
            None => return far,
        };
        far = later_exec(far, node_pattern_reach_exec(src, p));
        match parser::parse_node_pattern(src, p) {
            Some((_, q)) => {
                cur = q;
            },
            None => return far,
        }
    }
}

/// `node (edge node)*`.
pub open spec fn pattern_reach(src: SourceView, pos: int) -> nat {
    match parser::node_pattern_at(src, pos) {
        Some((_, p)) => later(node_pattern_reach(src, pos), more_steps_reach(src, p)),
        None => node_pattern_reach(src, pos),
    }
}

fn pattern_reach_exec(src: &Source, pos: usize) -> (r: usize)
    requires
        src.wf(),
        pos <= src@.chars.len(),
    ensures
        r == pattern_reach(src@, pos as int),
        r <= src@.chars.len(),
{
    let first = node_pattern_reach_exec(src, pos);
    match parser::parse_node_pattern(src, pos) {
        Some((_, p)) => later_exec(first, more_steps_reach_exec(src, p)),
        None => first,
    }
}

/// `alias . property`.
pub open spec fn property_ref_reach(src: SourceView, pos: int) -> nat {
    match text::ident_at(src, pos) {
        Some((_, p)) => match text::word_at(src, p, "."@) {
            Some(q) => unless(text::ident_at(src, q) is Some, src, q),
            None => missed(src, p),
        },
        None => missed(src, pos),
    }
}

fn property_ref_reach_exec(src: &Source, pos: usize) -> (r: usize)
    requires
        src.wf(),
        pos <= src@.chars.len(),
    ensures
        r == property_ref_reach(src@, pos as int),
        r <= src@.chars.len(),
{
    match text::ident_at_exec(src, pos) {
        Some((_, p)) => match text::word_at_exec(src, p, ".") {
            Some(q) => unless_exec(text::ident_at_exec(src, q).is_some(), src, q),
            None => text::skip_blank_exec(src, p),
        },
        None => text::skip_blank_exec(src, pos),
    }
}

/// `alias.property OP alias.property`.
pub open spec fn property_comparison_reach(src: SourceView, pos: int) -> nat {
    later(
        property_ref_reach(src, pos),
        match parser::property_ref_at(src, pos) {
            Some((_, p)) => match parser::op_at(src, p) {
                Some((_, q)) => property_ref_reach(src, q),
                None => missed(src, p),
            },
            None => 0,
        },
    )
}

fn property_comparison_reach_exec(src: &Source, pos: usize) -> (r: usize)
    requires
        src.wf(),
        pos <= src@.chars.len(),
    ensures
        r == property_comparison_reach(src@, pos as int),
        r <= src@.chars.len(),
{
    later_exec(
        property_ref_reach_exec(src, pos),
        match parser::parse_property_ref(src, pos) {
            Some((_, p)) => match parser::parse_comparison_op(src, p) {
                Some((_, q)) => property_ref_reach_exec(src, q),
                None => text::skip_blank_exec(src, p),
            },
            None => 0,
        },
    )
}

/// `alias.property OP literal`.
pub open spec fn property_condition_reach(src: SourceView, pos: int) -> nat {
    later(
        property_ref_reach(src, pos),
        match parser::property_ref_at(src, pos) {
            Some((_, p)) => match parser::op_at(src, p) {
                Some((_, q)) => unless(parser::literal_at(src, q) is Some, src, q),
                None => missed(src, p),
            },
            None => 0,
        },
    )
}

fn property_condition_reach_exec(src: &Source, pos: usize) -> (r: usize)
    requires
        src.wf(),
        pos <= src@.chars.len(),
    ensures
        r == property_condition_reach(src@, pos as int),
        r <= src@.chars.len(),
{
    later_exec(
        property_ref_reach_exec(src, pos),
        match parser::parse_property_ref(src, pos) {
            Some((_, p)) => match parser::parse_comparison_op(src, p) {
                Some((_, q)) => unless_exec(parser::parse_literal(src, q).is_some(), src, q),
                None => text::skip_blank_exec(src, p),
            },
            None => 0,
        },
    )
}

/// `alias OP alias`.
pub open spec fn alias_comparison_reach(src: SourceView, pos: int) -> nat {
    match text::ident_at(src, pos) {
        Some((_, p)) => match parser::op_at(src, p) {
            Some((_, q)) => unless(text::ident_at(src, q) is Some, src, q),
            None => missed(src, p),
        },
        None => missed(src, pos),
    }
}

fn alias_comparison_reach_exec(src: &Source, pos: usize) -> (r: usize)
    requires
        src.wf(),
        pos <= src@.chars.len(),
    ensures
        r == alias_comparison_reach(src@, pos as int),
        r <= src@.chars.len(),
{
    match text::ident_at_exec(src, pos) {
        Some((_, p)) => match parser::parse_comparison_op(src, p) {
            Some((_, q)) => unless_exec(text::ident_at_exec(src, q).is_some(), src, q),
            None => text::skip_blank_exec(src, p),
        },
        None => text::skip_blank_exec(src, pos),
    }
}

/// `NOT EXISTS { MATCH pattern`.
pub open spec fn not_exists_head_reach(src: SourceView, pos: int) -> nat {
    match text::word_at(src, pos, "NOT"@) {
        Some(p) => match text::word_at(src, p, "EXISTS"@) {
            Some(q) => match text::word_at(src, q, "{"@) {
                Some(r) => match text::word_at(src, r, "MATCH"@) {
                    Some(t) => pattern_reach(src, t),
                    None => missed(src, r),
                },
                None => missed(src, q),
            },
            None => missed(src, p),
        },
        None => missed(src, pos),
    }
}

fn not_exists_head_reach_exec(src: &Source, pos: usize) -> (r: usize)
    requires
        src.wf(),
        pos <= src@.chars.len(),
    ensures
        r == not_exists_head_reach(src@, pos as int),
        r <= src@.chars.len(),
{
    match text::word_at_exec(src, pos, "NOT") {
        Some(p) => match text::word_at_exec(src, p, "EXISTS") {
            Some(q) => match text::word_at_exec(src, q, "{") {
                Some(r) => match text::word_at_exec(src, r, "MATCH") {
                    Some(t) => pattern_reach_exec(src, t),
                    None => text::skip_blank_exec(src, r),
                },
                None => text::skip_blank_exec(src, q),
            },
            None => text::skip_blank_exec(src, p),
        },
        None => text::skip_blank_exec(src, pos),
    }
}

/// `NOT EXISTS { MATCH pattern where? }`.
pub open spec fn not_exists_reach(src: SourceView, pos: int) -> nat
    decreases src.chars.len() - pos, 0int,
{
    match parser::not_exists_head_at(src, pos) {
        Some((_, p)) => if pos < p <= src.chars.len() {
            let q = match parser::where_clause_at(src, p) {
                Some((_, q)) => q,
                None => p,
            };
            later(
                not_exists_head_reach(src, pos),
                later(where_clause_reach(src, p), word_reach(src, q, "}"@)),
            )
        } else {
            0
        },
        None => not_exists_head_reach(src, pos),
    }
}

/// One condition.
pub open spec fn where_condition_reach(src: SourceView, pos: int) -> nat
    decreases src.chars.len() - pos, 1int,
{
    let first = not_exists_reach(src, pos);
    if parser::not_exists_at(src, pos) is Some {
        first
    } else {
        let second = later(first, property_comparison_reach(src, pos));
        if parser::property_comparison_at(src, pos) is Some {
            second
        } else {
            let third = later(second, property_condition_reach(src, pos));
            if parser::property_condition_at(src, pos) is Some {
                third
            } else {
                later(third, alias_comparison_reach(src, pos))
            }
        }
    }
}

/// `(AND condition)*`.
pub open spec fn more_conditions_reach(src: SourceView, pos: int) -> nat
    decreases src.chars.len() - pos, 2int,
{
    match text::word_at(src, pos, "AND"@) {
        Some(p) => if pos <= p <= src.chars.len() {
            match parser::where_condition_at(src, p) {
                Some((_, q)) => if pos < q <= src.chars.len() {
                    later(where_condition_reach(src, p), more_conditions_reach(src, q))
                } else {
                    0
                },
                None => where_condition_reach(src, p),
            }
        } else {
            0
        },
        None => missed(src, pos),
    }
}

/// `WHERE condition (AND condition)*`.
pub open spec fn where_clause_reach(src: SourceView, pos: int) -> nat
    decreases src.chars.len() - pos, 3int,
{
    match text::word_at(src, pos, "WHERE"@) {
        Some(p) => if pos <= p <= src.chars.len() {
            match parser::where_condition_at(src, p) {
                Some((_, q)) => if pos < q <= src.chars.len() {
                    later(where_condition_reach(src, p), more_conditions_reach(src, q))
                } else {
                    0
                },
                None => where_condition_reach(src, p),
            }
        } else {
            0
        },
        None => missed(src, pos),
    }
}

fn not_exists_reach_exec(src: &Source, pos: usize) -> (r: usize)
    requires
        src.wf(),
        pos <= src@.chars.len(),
    ensures
        r == not_exists_reach(src@, pos as int),
        r <= src@.chars.len(),
    decreases src@.chars.len() - pos, 0int,
{
    let first = not_exists_head_reach_exec(src, pos);
    match parser::parse_not_exists_head(src, pos) {
        Some((_, p)) => {
            let q: usize = match parser::parse_where_clause(src, p) {
                Some((_, q)) => q,
                None => p,
            };
            later_exec(
                first,
                later_exec(where_clause_reach_exec(src, p), word_reach_exec(src, q, "}")),
            )
        },
        None => first,
    }
}

fn where_condition_reach_exec(src: &Source, pos: usize) -> (r: usize)
    requires
        src.wf(),
        pos <= src@.chars.len(),
    ensures
        r == where_condition_reach(src@, pos as int),
        r <= src@.chars.len(),
    decreases src@.chars.len() - pos, 1int,
{
    let first = not_exists_reach_exec(src, pos);
    if parser::parse_not_exists_clause(src, pos).is_some() {
        return first;
    }
    let second = later_exec(first, property_comparison_reach_exec(src, pos));
    if parser::parse_property_property_comparison(src, pos).is_some() {
        return second;
    }
    let third = later_exec(second, property_condition_reach_exec(src, pos));
    if parser::parse_property_condition(src, pos).is_some() {
        return third;
    }
    later_exec(third, alias_comparison_reach_exec(src, pos))
}

fn where_clause_reach_exec(src: &Source, pos: usize) -> (r: usize)
    requires
        src.wf(),
        pos <= src@.chars.len(),
    ensures
        r == where_clause_reach(src@, pos as int),
        r <= src@.chars.len(),
    decreases src@.chars.len() - pos, 3int,
{
    let p = match text::word_at_exec(src, pos, "WHERE") {
        Some(p) => p,
        None => return text::skip_blank_exec(src, pos),
    };
    let mut far: usize = where_condition_reach_exec(src, p);
    let start = match parser::parse_where_condition(src, p) {
        Some((_, q)) => q,
        None => return far,
    };
    let mut cur: usize = start;
    loop
        invariant
            src.wf(),
            pos < cur <= src@.chars.len(),
            far <= src@.chars.len(),
            later(far as nat, more_conditions_reach(src@, cur as int)) == where_clause_reach(
                src@,
                pos as int,
            ),
        decreases src@.chars.len() - cur,
    {
        let n = match text::word_at_exec(src, cur, "AND") {
            Some(n) => n,
            None => return later_exec(far, text::skip_blank_exec(src, cur)),
        };
        far = later_exec(far, where_condition_reach_exec(src, n));
        match parser::parse_where_condition(src, n) {
            Some((_, q)) => {
                cur = q;
            },
            None => return far,
        }
    }
}

/// `alias (. property)?`.
pub open spec fn return_item_reach(src: SourceView, pos: int) -> nat {
    match text::ident_at(src, pos) {
        Some((_, p)) => match text::word_at(src, p, "."@) {
            Some(q) => unless(text::ident_at(src, q) is Some, src, q),
            None => missed(src, p),
        },
        None => missed(src, pos),
    }
}

fn return_item_reach_exec(src: &Source, pos: usize) -> (r: usize)
    requires
        src.wf(),
        pos <= src@.chars.len(),
    ensures
        r == return_item_reach(src@, pos as int),
        r <= src@.chars.len(),
{
    match text::ident_at_exec(src, pos) {
        Some((_, p)) => match text::word_at_exec(src, p, ".") {
            Some(q) => unless_exec(text::ident_at_exec(src, q).is_some(), src, q),
            None => text::skip_blank_exec(src, p),
        },
        None => text::skip_blank_exec(src, pos),
    }
}

/// `(, item)*`.
pub open spec fn more_return_items_reach(src: SourceView, pos: int) -> nat
    decreases src.chars.len() - pos,
{
    match text::word_at(src, pos, ","@) {
        Some(p) => match parser::return_item_at(src, p) {
            Some((_, q)) => if pos < q <= src.chars.len() {
                later(return_item_reach(src, p), more_return_items_reach(src, q))
            } else {
                0
            },
            None => return_item_reach(src, p),
        },
        None => missed(src, pos),
    }
}

fn more_return_items_reach_exec(src: &Source, pos: usize) -> (r: usize)
    requires
        src.wf(),
        pos <= src@.chars.len(),
    ensures
        r == more_return_items_reach(src@, pos as int),
        r <= src@.chars.len(),
{
    let mut far: usize = 0;
    let mut cur: usize = pos;
    loop
        invariant
            src.wf(),
            pos <= cur <= src@.chars.len(),
            far <= src@.chars.len(),
            later(far as nat, more_return_items_reach(src@, cur as int)) == more_return_items_reach(
                src@,
                pos as int,
            ),
        decreases src@.chars.len() - cur,
    {
        let p = match text::word_at_exec(src, cur, ",") {
            Some(p) => p,
            None => return later_exec(far, text::skip_blank_exec(src, cur)),
        };
        far = later_exec(far, return_item_reach_exec(src, p));
        match parser::parse_return_item(src, p) {
            Some((_, q)) => {
                cur = q;
            },
            None => return far,
        }
    }
}

/// `RETURN item (, item)*`.
pub open spec fn return_clause_reach(src: SourceView, pos: int) -> nat {
    match text::word_at(src, pos, "RETURN"@) {
        Some(p) => later(
            return_item_reach(src, p),
            match parser::return_item_at(src, p) {
                Some((_, q)) => more_return_items_reach(src, q),
                None => 0,
            },
        ),
        None => missed(src, pos),
    }
}

fn return_clause_reach_exec(src: &Source, pos: usize) -> (r: usize)
    requires
        src.wf(),
        pos <= src@.chars.len(),
    ensures
        r == return_clause_reach(src@, pos as int),
        r <= src@.chars.len(),
{
    match text::word_at_exec(src, pos, "RETURN") {
        Some(p) => later_exec(
            return_item_reach_exec(src, p),
            match parser::parse_return_item(src, p) {
                Some((_, q)) => more_return_items_reach_exec(src, q),
                None => 0,
            },
        ),
        None => text::skip_blank_exec(src, pos),
    }
}

/// `(ASC | DESC)?`.
pub open spec fn sort_direction_reach(src: SourceView, pos: int) -> nat {
    unless(
        text::word_at(src, pos, "ASC"@) is Some || text::word_at(src, pos, "DESC"@) is Some,
        src,
        pos,
    )
}

/// `ORDER BY alias.property (ASC | DESC)?`.
pub open spec fn order_by_reach(src: SourceView, pos: int) -> nat {
    match text::word_at(src, pos, "ORDER"@) {
        Some(p) => match text::word_at(src, p, "BY"@) {
            Some(q) => later(
                property_ref_reach(src, q),
                match parser::property_ref_at(src, q) {
                    Some((_, t)) => sort_direction_reach(src, t),
                    None => 0,
                },
            ),
            None => missed(src, p),
        },
        None => missed(src, pos),
    }
}

fn order_by_reach_exec(src: &Source, pos: usize) -> (r: usize)
    requires
        src.wf(),
        pos <= src@.chars.len(),
    ensures
        r == order_by_reach(src@, pos as int),
        r <= src@.chars.len(),
{
    match text::word_at_exec(src, pos, "ORDER") {
        Some(p) => match text::word_at_exec(src, p, "BY") {
            Some(q) => later_exec(
                property_ref_reach_exec(src, q),
                match parser::parse_property_ref(src, q) {
                    Some((_, t)) => unless_exec(
                        text::word_at_exec(src, t, "ASC").is_some() || text::word_at_exec(
                            src,
                            t,
                            "DESC",
                        ).is_some(),
                        src,
                        t,
                    ),
                    None => 0,
                },
            ),
            None => text::skip_blank_exec(src, p),
        },
        None => text::skip_blank_exec(src, pos),
    }
}

/// `LIMIT n`.
pub open spec fn limit_reach(src: SourceView, pos: int) -> nat {
    match text::word_at(src, pos, "LIMIT"@) {
        Some(p) => unless(text::number_at(src, p, u64::MAX as int) is Some, src, p),
        None => missed(src, pos),
    }
}

fn limit_reach_exec(src: &Source, pos: usize) -> (r: usize)
    requires
        src.wf(),
        pos <= src@.chars.len(),
    ensures
        r == limit_reach(src@, pos as int),
        r <= src@.chars.len(),
{
    match text::word_at_exec(src, pos, "LIMIT") {
        Some(p) => unless_exec(text::number_at_exec(src, p, u64::MAX).is_some(), src, p),
        None => text::skip_blank_exec(src, pos),
    }
}

/// What may stand behind a projection, and the end of the text.
pub open spec fn ending_reach(src: SourceView, pos: int) -> nat {
    let u = match parser::order_by_at(src, pos) {
        Some((_, u)) => u,
        None => pos,
    };
    let v = match parser::limit_at(src, u) {
        Some((_, v)) => v,
        None => u,
    };
    later(
        later(order_by_reach(src, pos), limit_reach(src, u)),
        unless(text::skip_blank(src, v) == src.chars.len(), src, v),
    )
}

fn ending_reach_exec(src: &Source, pos: usize) -> (r: usize)
    requires
        src.wf(),
        pos <= src@.chars.len(),
    ensures
        r == ending_reach(src@, pos as int),
        r <= src@.chars.len(),
{
    let u: usize = match parser::parse_order_by_clause(src, pos) {
        Some((_, u)) => u,
        None => pos,
    };
    let v: usize = match parser::parse_limit_clause(src, u) {
        Some((_, v)) => v,
        None => u,
    };
    later_exec(
        later_exec(order_by_reach_exec(src, pos), limit_reach_exec(src, u)),
        unless_exec(text::skip_blank_exec(src, v) == src.chars.len(), src, v),
    )
}

/// What stands behind a pattern.
pub open spec fn clauses_reach(src: SourceView, pos: int) -> nat {
    let r = match parser::where_clause_at(src, pos) {
        Some((_, r)) => r,
        None => pos,
    };
    later(
        later(where_clause_reach(src, pos), return_clause_reach(src, r)),
        match parser::return_clause_at(src, r) {
            None => 0,
            Some((_, t)) => ending_reach(src, t),
        },
    )
}

fn clauses_reach_exec(src: &Source, pos: usize) -> (r: usize)
    requires
        src.wf(),
        pos <= src@.chars.len(),
    ensures
        r == clauses_reach(src@, pos as int),
        r <= src@.chars.len(),
{
    let r: usize = match parser::parse_where_clause(src, pos) {
        Some((_, r)) => r,
        None => pos,
    };
    later_exec(
        later_exec(where_clause_reach_exec(src, pos), return_clause_reach_exec(src, r)),
        match parser::parse_return_clause(src, r) {
            Some((_, t)) => ending_reach_exec(src, t),
            None => 0,
        },
    )
}

/// How far a text follows the grammar: the furthest token that is missed.
pub open spec fn furthest(src: SourceView) -> nat {
    match text::word_at(src, 0, "MATCH"@) {
        Some(p) => later(
            pattern_reach(src, p),
            match parser::pattern_at(src, p) {
                Some((_, q)) => clauses_reach(src, q),
                None => 0,
            },
        ),
        None => missed(src, 0),
    }
}

/// How far a text follows the grammar.
pub fn find_furthest(src: &Source) -> (r: usize)
    requires
        src.wf(),
    ensures
        r == furthest(src@),
        r <= src@.chars.len(),
{
    match text::word_at_exec(src, 0, "MATCH") {
        Some(p) => later_exec(
            pattern_reach_exec(src, p),
            match parser::parse_pattern(src, p) {
                Some((_, q)) => clauses_reach_exec(src, q),
                None => 0,
            },
        ),
        None => text::skip_blank_exec(src, 0),
    }
}

} // verus!
