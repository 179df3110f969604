//! Where the reading of a query stops: a text that is no query is told of at
//! a place behind everything that was read of it, where something stands that
//! could not be read.
use crate::dsl::grammar;
use crate::dsl::parser;
use crate::dsl::reach;
use crate::layout;
use crate::text;
use crate::text::SourceView;
use vstd::prelude::*;

verus! {

/// That reading can stop at a place: something stands there, or the text ends.
pub open spec fn is_stop(src: SourceView, n: nat) -> bool {
    ||| n == 0
    ||| n == src.chars.len()
    ||| n < src.chars.len() && !(src.chars[n as int] == ' ' || src.chars[n as int] == '\t'
        || src.chars[n as int] == '\r' || src.chars[n as int] == '\n')
}

proof fn lemma_missed(src: SourceView, pos: int)
    requires
        0 <= pos <= src.chars.len(),
        !src.comments,
    ensures
        is_stop(src, reach::missed(src, pos)),
        pos <= reach::missed(src, pos) <= src.chars.len(),
    decreases src.chars.len() - pos,
{
    text::lemma_skip_blank(src, pos);
    if pos < src.chars.len() && text::is_blank(src.chars[pos]) {
        lemma_missed(src, pos + 1);
    }
}

proof fn lemma_pair(src: SourceView, pos: int)
    requires
        0 <= pos <= src.chars.len(),
        !src.comments,
    ensures
        is_stop(src, reach::property_kv_reach(src, pos)),
        parser::property_kv_at(src, pos) is None ==> pos <= reach::property_kv_reach(src, pos),
{
    reveal_strlit(":");
    lemma_missed(src, pos);
    layout::lemma_read_name(src, pos);
    if let Some((_, p)) = text::ident_at(src, pos) {
        lemma_missed(src, p);
        layout::lemma_read_word(src, p, ":"@);
        if let Some(q) = text::word_at(src, p, ":"@) {
            lemma_missed(src, q);
        }
    }
}

proof fn lemma_more_pairs(src: SourceView, pos: int)
    requires
        0 <= pos <= src.chars.len(),
        !src.comments,
    ensures
        is_stop(src, reach::more_property_kvs_reach(src, pos)),
    decreases src.chars.len() - pos,
{
    reveal_strlit(",");
    lemma_missed(src, pos);
    layout::lemma_read_word(src, pos, ","@);
    if let Some(p) = text::word_at(src, pos, ","@) {
        lemma_pair(src, p);
        grammar::lemma_pair(src, p);
        if let Some((_, q)) = parser::property_kv_at(src, p) {
            lemma_more_pairs(src, q);
        }
    }
}

proof fn lemma_pairs(src: SourceView, pos: int)
    requires
        0 <= pos <= src.chars.len(),
        !src.comments,
    ensures
        is_stop(src, reach::property_map_reach(src, pos)),
{
    reveal_strlit("{");
    lemma_missed(src, pos);
    layout::lemma_read_word(src, pos, "{"@);
    if let Some(p) = text::word_at(src, pos, "{"@) {
        lemma_pair(src, p);
        grammar::lemma_pair(src, p);
        if let Some((_, q)) = parser::property_kv_at(src, p) {
            lemma_more_pairs(src, q);
            grammar::lemma_more_pairs(src, q);
            lemma_missed(src, parser::more_property_kvs_at(src, q).1);
        }
    }
}

proof fn lemma_suffix(src: SourceView, pos: int)
    requires
        0 <= pos <= src.chars.len(),
        !src.comments,
    ensures
        is_stop(src, reach::type_suffix_reach(src, pos)),
{
    reveal_strlit(":");
    lemma_missed(src, pos);
    layout::lemma_read_word(src, pos, ":"@);
    if let Some(p) = text::word_at(src, pos, ":"@) {
        lemma_missed(src, p);
    }
}

proof fn lemma_node(src: SourceView, pos: int)
    requires
        0 <= pos <= src.chars.len(),
        !src.comments,
    ensures
        is_stop(src, reach::node_pattern_reach(src, pos)),
        parser::node_pattern_at(src, pos) is None ==> text::skip_blank(src, pos)
            <= reach::node_pattern_reach(src, pos),
{
    reveal_strlit("(");
    lemma_missed(src, pos);
    layout::lemma_read_word(src, pos, "("@);
    if let Some(p) = text::word_at(src, pos, "("@) {
        lemma_missed(src, p);
        layout::lemma_read_name(src, p);
        if let Some((_, q)) = text::ident_at(src, p) {
            lemma_suffix(src, q);
            grammar::lemma_suffix(src, q);
            let r = parser::type_suffix_at(src, q).1;
            lemma_pairs(src, r);
            grammar::lemma_pairs(src, r);
            let t: int = match parser::property_map_at(src, r) {
                Some((_, t)) => t,
                None => r,
            };
            lemma_missed(src, t);
        }
    }
}

proof fn lemma_range(src: SourceView, pos: int)
    requires
        0 <= pos <= src.chars.len(),
        !src.comments,
    ensures
        is_stop(src, reach::hop_range_reach(src, pos)),
{
    reveal_strlit("*");
    reveal_strlit("..");
    lemma_missed(src, pos);
    layout::lemma_read_word(src, pos, "*"@);
    if let Some(p) = text::word_at(src, pos, "*"@) {
        lemma_missed(src, p);
        layout::lemma_read_number(src, p, u32::MAX as int);
        if let Some((_, q)) = text::number_at(src, p, u32::MAX as int) {
            lemma_missed(src, q);
            layout::lemma_read_word(src, q, ".."@);
            if let Some(r) = text::word_at(src, q, ".."@) {
                lemma_missed(src, r);
            }
        }
    }
}

proof fn lemma_detail(src: SourceView, pos: int)
    requires
        0 <= pos <= src.chars.len(),
        !src.comments,
    ensures
        is_stop(src, reach::edge_detail_reach(src, pos)),
{
    reveal_strlit("[");
    lemma_missed(src, pos);
    layout::lemma_read_word(src, pos, "["@);
    if let Some(p) = text::word_at(src, pos, "["@) {
        lemma_missed(src, p);
        layout::lemma_read_name(src, p);
        let q: int = match text::ident_at(src, p) {
            Some((_, q)) => q,
            None => p,
        };
        lemma_suffix(src, q);
        grammar::lemma_suffix(src, q);
        let r = parser::type_suffix_at(src, q).1;
        lemma_range(src, r);
        grammar::lemma_range(src, r);
        let t: int = match parser::hop_range_at(src, r) {
            Some((_, t)) => t,
            None => r,
        };
        lemma_missed(src, t);
    }
}

proof fn lemma_arrow(src: SourceView, pos: int, open: Seq<char>, close: Seq<char>)
    requires
        0 <= pos <= src.chars.len(),
        !src.comments,
        open.len() > 0,
    ensures
        is_stop(src, reach::arrow_reach(src, pos, open, close)),
{
    lemma_missed(src, pos);
    layout::lemma_read_word(src, pos, open);
    if let Some(p) = text::word_at(src, pos, open) {
        lemma_detail(src, p);
        grammar::lemma_detail(src, p);
        lemma_missed(src, parser::optional_detail_at(src, p).1);
    }
}

proof fn lemma_edge(src: SourceView, pos: int)
    requires
        0 <= pos <= src.chars.len(),
        !src.comments,
    ensures
        is_stop(src, reach::edge_pattern_reach(src, pos)),
{
    reveal_strlit("-");
    reveal_strlit("<-");
    lemma_arrow(src, pos, "-"@, "->"@);
    lemma_arrow(src, pos, "<-"@, "-"@);
}

proof fn lemma_more_steps(src: SourceView, pos: int)
    requires
        0 <= pos <= src.chars.len(),
        !src.comments,
    ensures
        is_stop(src, reach::more_steps_reach(src, pos)),
    decreases src.chars.len() - pos,
{
    lemma_edge(src, pos);
    grammar::lemma_edge(src, pos);
    if let Some((_, p)) = parser::edge_pattern_at(src, pos) {
        lemma_node(src, p);
        grammar::lemma_node(src, p);
        if let Some((_, q)) = parser::node_pattern_at(src, p) {
            lemma_more_steps(src, q);
        }
    }
}

proof fn lemma_pattern(src: SourceView, pos: int)
    requires
        0 <= pos <= src.chars.len(),
        !src.comments,
    ensures
        is_stop(src, reach::pattern_reach(src, pos)),
        parser::pattern_at(src, pos) is None ==> text::skip_blank(src, pos) <= reach::pattern_reach(
            src,
            pos,
        ),
{
    lemma_node(src, pos);
    grammar::lemma_node(src, pos);
    if let Some((_, p)) = parser::node_pattern_at(src, pos) {
        lemma_more_steps(src, p);
    }
}

proof fn lemma_reference(src: SourceView, pos: int)
    requires
        0 <= pos <= src.chars.len(),
        !src.comments,
    ensures
        is_stop(src, reach::property_ref_reach(src, pos)),
{
    reveal_strlit(".");
    lemma_missed(src, pos);
    layout::lemma_read_name(src, pos);
    if let Some((_, p)) = text::ident_at(src, pos) {
        lemma_missed(src, p);
        layout::lemma_read_word(src, p, "."@);
        if let Some(q) = text::word_at(src, p, "."@) {
            lemma_missed(src, q);
        }
    }
}

proof fn lemma_comparisons(src: SourceView, pos: int)
    requires
        0 <= pos <= src.chars.len(),
        !src.comments,
    ensures
        is_stop(src, reach::property_comparison_reach(src, pos)),
        is_stop(src, reach::property_condition_reach(src, pos)),
        is_stop(src, reach::alias_comparison_reach(src, pos)),
{
    lemma_missed(src, pos);
    lemma_reference(src, pos);
    grammar::lemma_reference(src, pos);
    if let Some((_, p)) = parser::property_ref_at(src, pos) {
        lemma_missed(src, p);
        grammar::lemma_op(src, p);
        if let Some((_, q)) = parser::op_at(src, p) {
            lemma_reference(src, q);
            lemma_missed(src, q);
        }
    }
    layout::lemma_read_name(src, pos);
    if let Some((_, p)) = text::ident_at(src, pos) {
        lemma_missed(src, p);
        grammar::lemma_op(src, p);
        if let Some((_, q)) = parser::op_at(src, p) {
            lemma_missed(src, q);
        }
    }
}

proof fn lemma_not_exists_head(src: SourceView, pos: int)
    requires
        0 <= pos <= src.chars.len(),
        !src.comments,
    ensures
        is_stop(src, reach::not_exists_head_reach(src, pos)),
{
    reveal_strlit("NOT");
    reveal_strlit("EXISTS");
    reveal_strlit("{");
    reveal_strlit("MATCH");
    lemma_missed(src, pos);
    layout::lemma_read_word(src, pos, "NOT"@);
    if let Some(p) = text::word_at(src, pos, "NOT"@) {
        lemma_missed(src, p);
        layout::lemma_read_word(src, p, "EXISTS"@);
        if let Some(q) = text::word_at(src, p, "EXISTS"@) {
            lemma_missed(src, q);
            layout::lemma_read_word(src, q, "{"@);
            if let Some(r) = text::word_at(src, q, "{"@) {
                lemma_missed(src, r);
                layout::lemma_read_word(src, r, "MATCH"@);
                if let Some(t) = text::word_at(src, r, "MATCH"@) {
                    lemma_pattern(src, t);
                }
            }
        }
    }
}

proof fn lemma_not_exists(src: SourceView, pos: int)
    requires
        0 <= pos <= src.chars.len(),
        !src.comments,
    ensures
        is_stop(src, reach::not_exists_reach(src, pos)),
    decreases src.chars.len() - pos, 0int,
{
    lemma_not_exists_head(src, pos);
    grammar::lemma_not_exists_head(src, pos);
    if let Some((_, p)) = parser::not_exists_head_at(src, pos) {
        lemma_conditions(src, p);
        grammar::lemma_conditions(src, p);
        let q: int = match parser::where_clause_at(src, p) {
            Some((_, q)) => q,
            None => p,
        };
        lemma_missed(src, q);
    }
}

proof fn lemma_condition(src: SourceView, pos: int)
    requires
        0 <= pos <= src.chars.len(),
        !src.comments,
    ensures
        is_stop(src, reach::where_condition_reach(src, pos)),
    decreases src.chars.len() - pos, 1int,
{
    lemma_not_exists(src, pos);
    lemma_comparisons(src, pos);
}

proof fn lemma_more_conditions(src: SourceView, pos: int)
    requires
        0 <= pos <= src.chars.len(),
        !src.comments,
    ensures
        is_stop(src, reach::more_conditions_reach(src, pos)),
    decreases src.chars.len() - pos, 2int,
{
    reveal_strlit("AND");
    lemma_missed(src, pos);
    layout::lemma_read_word(src, pos, "AND"@);
    if let Some(p) = text::word_at(src, pos, "AND"@) {
        lemma_condition(src, p);
        grammar::lemma_condition(src, p);
        if let Some((_, q)) = parser::where_condition_at(src, p) {
            lemma_more_conditions(src, q);
        }
    }
}

proof fn lemma_conditions(src: SourceView, pos: int)
    requires
        0 <= pos <= src.chars.len(),
        !src.comments,
    ensures
        is_stop(src, reach::where_clause_reach(src, pos)),
    decreases src.chars.len() - pos, 3int,
{
    reveal_strlit("WHERE");
    lemma_missed(src, pos);
    layout::lemma_read_word(src, pos, "WHERE"@);
    if let Some(p) = text::word_at(src, pos, "WHERE"@) {
        lemma_condition(src, p);
        grammar::lemma_condition(src, p);
        if let Some((_, q)) = parser::where_condition_at(src, p) {
            lemma_more_conditions(src, q);
        }
    }
}

proof fn lemma_item(src: SourceView, pos: int)
    requires
        0 <= pos <= src.chars.len(),
        !src.comments,
    ensures
        is_stop(src, reach::return_item_reach(src, pos)),
        parser::return_item_at(src, pos) is None ==> pos <= reach::return_item_reach(src, pos),
{
    reveal_strlit(".");
    lemma_missed(src, pos);
    layout::lemma_read_name(src, pos);
    if let Some((_, p)) = text::ident_at(src, pos) {
        lemma_missed(src, p);
        layout::lemma_read_word(src, p, "."@);
        if let Some(q) = text::word_at(src, p, "."@) {
            lemma_missed(src, q);
        }
    }
}

proof fn lemma_more_items(src: SourceView, pos: int)
    requires
        0 <= pos <= src.chars.len(),
        !src.comments,
    ensures
        is_stop(src, reach::more_return_items_reach(src, pos)),
    decreases src.chars.len() - pos,
{
    reveal_strlit(",");
    lemma_missed(src, pos);
    layout::lemma_read_word(src, pos, ","@);
    if let Some(p) = text::word_at(src, pos, ","@) {
        lemma_item(src, p);
        grammar::lemma_item(src, p);
        if let Some((_, q)) = parser::return_item_at(src, p) {
            lemma_more_items(src, q);
        }
    }
}

proof fn lemma_items(src: SourceView, pos: int)
    requires
        0 <= pos <= src.chars.len(),
        !src.comments,
    ensures
        is_stop(src, reach::return_clause_reach(src, pos)),
        parser::return_clause_at(src, pos) is None ==> text::skip_blank(src, pos)
            <= reach::return_clause_reach(src, pos),
{
    reveal_strlit("RETURN");
    lemma_missed(src, pos);
    layout::lemma_read_word(src, pos, "RETURN"@);
    if let Some(p) = text::word_at(src, pos, "RETURN"@) {
        lemma_item(src, p);
        grammar::lemma_item(src, p);
        if let Some((_, q)) = parser::return_item_at(src, p) {
            lemma_more_items(src, q);
        }
    }
}

proof fn lemma_ending(src: SourceView, pos: int)
    requires
        0 <= pos <= src.chars.len(),
        !src.comments,
    ensures
        is_stop(src, reach::ending_reach(src, pos)),
{
    reveal_strlit("ORDER");
    reveal_strlit("BY");
    reveal_strlit("LIMIT");
    lemma_missed(src, pos);
    layout::lemma_read_word(src, pos, "ORDER"@);
    if let Some(p) = text::word_at(src, pos, "ORDER"@) {
        lemma_missed(src, p);
        layout::lemma_read_word(src, p, "BY"@);
        if let Some(q) = text::word_at(src, p, "BY"@) {
            lemma_reference(src, q);
            grammar::lemma_reference(src, q);
            if let Some((_, t)) = parser::property_ref_at(src, q) {
                lemma_missed(src, t);
            }
        }
    }
    grammar::lemma_order(src, pos);
    let u: int = match parser::order_by_at(src, pos) {
        Some((_, u)) => u,
        None => pos,
    };
    lemma_missed(src, u);
    layout::lemma_read_word(src, u, "LIMIT"@);
    if let Some(p) = text::word_at(src, u, "LIMIT"@) {
        lemma_missed(src, p);
    }
    grammar::lemma_limit(src, u);
    let v: int = match parser::limit_at(src, u) {
        Some((_, v)) => v,
        None => u,
    };
    lemma_missed(src, v);
}

/// How far the clauses of a text can be read, one behind the other.
pub open spec fn read_up_to(src: SourceView) -> int {
    match text::word_at(src, 0, "MATCH"@) {
        None => 0,
        Some(a) => match parser::pattern_at(src, a) {
            None => a,
            Some((_, b)) => {
                let c: int = match parser::where_clause_at(src, b) {
                    Some((_, c)) => c,
                    None => b,
                };
                match parser::return_clause_at(src, c) {
                    None => c,
                    Some((_, d)) => {
                        let e: int = match parser::order_by_at(src, d) {
                            Some((_, e)) => e,
                            None => d,
                        };
                        match parser::limit_at(src, e) {
                            Some((_, f)) => f,
                            None => e,
                        }
                    },
                }
            },
        },
    }
}

proof fn lemma_clauses(src: SourceView, pos: int)
    requires
        0 <= pos <= src.chars.len(),
        !src.comments,
    ensures
        is_stop(src, reach::clauses_reach(src, pos)),
{
    lemma_conditions(src, pos);
    grammar::lemma_conditions(src, pos);
    let r: int = match parser::where_clause_at(src, pos) {
        Some((_, r)) => r,
        None => pos,
    };
    lemma_items(src, r);
    grammar::lemma_items(src, r);
    if let Some((_, t)) = parser::return_clause_at(src, r) {
        lemma_ending(src, t);
    }
}

/// A text that is no query is told of at a place where something stands that
/// could not be read, or where the text ends too early; the place is given in
/// bytes. Where no `MATCH` stands first, it is the first place that is not
/// blank.
pub proof fn law_an_error_is_told_where_something_stands(source: Seq<char>)
    ensures
        ({
            let src = SourceView { chars: source, comments: false };
            let far = reach::furthest(src);
            &&& far <= source.len()
            &&& is_stop(src, far)
            &&& parser::query_of(source) matches Err((pos, _)) ==> pos == vstd::utf8::encode_utf8(
                source.take(far as int),
            ).len()
            &&& text::word_at(src, 0, "MATCH"@) is None ==> layout::gap(src, 0, far as int)
        }),
{
    reveal_strlit("MATCH");
    let src = SourceView { chars: source, comments: false };
    lemma_missed(src, 0);
    layout::lemma_gap(src, 0);
    layout::lemma_read_word(src, 0, "MATCH"@);
    if let Some(a) = text::word_at(src, 0, "MATCH"@) {
        lemma_pattern(src, a);
        grammar::lemma_pattern(src, a);
        if let Some((_, b)) = parser::pattern_at(src, a) {
            lemma_clauses(src, b);
        }
    }
}

/// It is no place before the end of what was read.
pub proof fn law_an_error_is_told_behind_what_was_read(source: Seq<char>)
    ensures
        parser::query_of(source) is Err ==> read_up_to(SourceView { chars: source, comments: false })
            <= reach::furthest(SourceView { chars: source, comments: false }),
{
    reveal_strlit("MATCH");
    let src = SourceView { chars: source, comments: false };
    layout::lemma_read_word(src, 0, "MATCH"@);
    if let Some(a) = text::word_at(src, 0, "MATCH"@) {
        text::lemma_skip_blank(src, a);
        lemma_pattern(src, a);
        grammar::lemma_pattern(src, a);
        if let Some((_, b)) = parser::pattern_at(src, a) {
            grammar::lemma_conditions(src, b);
            let c: int = match parser::where_clause_at(src, b) {
                Some((_, c)) => c,
                None => b,
            };
            text::lemma_skip_blank(src, c);
            lemma_items(src, c);
            grammar::lemma_items(src, c);
            if let Some((_, d)) = parser::return_clause_at(src, c) {
                grammar::lemma_order(src, d);
                let e: int = match parser::order_by_at(src, d) {
                    Some((_, e)) => e,
                    None => d,
                };
                grammar::lemma_limit(src, e);
                let f: int = match parser::limit_at(src, e) {
                    Some((_, f)) => f,
                    None => e,
                };
                text::lemma_skip_blank(src, f);
            }
        }
    }
}

} // verus!
