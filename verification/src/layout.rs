//! Texts that are tokens with blank space between them.
//!
//! A text lays out tokens if they stand in it one behind the other, with any
//! blank space, or none, before each; only names and numbers do not run into
//! what follows. What the grammars read from a text is said of the tokens that
//! it lays out.
use crate::text;
use crate::text::SourceView;
use vstd::prelude::*;

verus! {

/// Whether a character can stand in a name or a number.
pub open spec fn joins(c: char) -> bool {
    ('a' <= c && c <= 'z') || ('A' <= c && c <= 'Z') || ('0' <= c && c <= '9') || c == '_'
}

/// Whether a text is a name: letters, digits and underscores, no digit first.
pub open spec fn is_name(s: Seq<char>) -> bool {
    &&& s.len() > 0
    &&& !('0' <= s[0] && s[0] <= '9')
    &&& forall|i: int| 0 <= i < s.len() ==> joins(#[trigger] s[i])
}

/// Whether a text is made of digits.
pub open spec fn is_digits(s: Seq<char>) -> bool {
    s.len() > 0 && forall|i: int| 0 <= i < s.len() ==> '0' <= #[trigger] s[i] && s[i] <= '9'
}

/// Whether a text can stand in quotation marks.
pub open spec fn is_quotable(s: Seq<char>) -> bool {
    forall|i: int| 0 <= i < s.len() ==> #[trigger] s[i] != '"'
}

/// A text in quotation marks.
pub open spec fn quoted(s: Seq<char>) -> Seq<char> {
    seq!['"'] + s + seq!['"']
}

/// The number that digits write: each stands for ten times as much as the one
/// behind it.
pub open spec fn written_number(s: Seq<char>) -> int
    decreases s.len(),
{
    if s.len() == 0 {
        0
    } else {
        10 * written_number(s.drop_last()) + (s.last() as int - 48)
    }
}

/// Whether digits write a number.
pub open spec fn writes(s: Seq<char>, n: int) -> bool {
    is_digits(s) && written_number(s) == n
}

/// That a token stands at `p`, with nothing but blank space between `pos` and
/// it.
pub open spec fn token_at(s: Seq<char>, pos: int, p: int, t: Seq<char>) -> bool {
    &&& 0 <= pos <= p
    &&& t.len() > 0
    &&& p + t.len() <= s.len()
    &&& forall|k: int|
        pos <= k < p ==> (#[trigger] s[k] == ' ' || s[k] == '\t' || s[k] == '\r' || s[k] == '\n')
    &&& s.subrange(p, p + t.len()) == t
    &&& joins(t.last()) && p + t.len() < s.len() ==> !joins(s[p + t.len()])
}

/// That tokens stand one behind the other from `pos` on, the last of them up to
/// `end`.
pub open spec fn laid_out(s: Seq<char>, pos: int, tokens: Seq<Seq<char>>, end: int) -> bool
    decreases tokens.len(),
{
    if tokens.len() == 0 {
        pos == end
    } else {
        exists|p: int| #[trigger]
            token_at(s, pos, p, tokens[0]) && laid_out(
                s,
                p + tokens[0].len(),
                tokens.drop_first(),
                end,
            )
    }
}

/// That a text is tokens, and blank space at most behind them.
pub open spec fn is_layout(s: Seq<char>, tokens: Seq<Seq<char>>) -> bool {
    exists|end: int| #[trigger]
        laid_out(s, 0, tokens, end) && end <= s.len() && forall|k: int|
            end <= k < s.len() ==> (#[trigger] s[k] == ' ' || s[k] == '\t' || s[k] == '\r' || s[k]
                == '\n')
}

/// The first character from a position on that is not blank.
pub open spec fn head(src: SourceView, pos: int) -> Option<char> {
    let p = text::skip_blank(src, pos);
    if 0 <= p < src.chars.len() {
        Some(src.chars[p])
    } else {
        None
    }
}

/// Tokens are laid out one part behind the other.
pub proof fn lemma_split(
    s: Seq<char>,
    pos: int,
    a: Seq<Seq<char>>,
    b: Seq<Seq<char>>,
    end: int,
) -> (mid: int)
    requires
        laid_out(s, pos, a + b, end),
    ensures
        laid_out(s, pos, a, mid),
        laid_out(s, mid, b, end),
    decreases a.len(),
{
    if a.len() == 0 {
        assert(a + b =~= b);
        pos
    } else {
        let all = a + b;
        let p = choose|p: int| #[trigger]
            token_at(s, pos, p, all[0]) && laid_out(s, p + all[0].len(), all.drop_first(), end);
        assert(all[0] == a[0]);
        assert(all.drop_first() =~= a.drop_first() + b);
        let mid = lemma_split(s, p + a[0].len(), a.drop_first(), b, end);
        assert(token_at(s, pos, p, a[0]) && laid_out(s, p + a[0].len(), a.drop_first(), mid));
        mid
    }
}

/// Where tokens are laid out the text goes on to their end.
pub proof fn lemma_within(s: Seq<char>, pos: int, a: Seq<Seq<char>>, end: int)
    requires
        laid_out(s, pos, a, end),
        0 <= pos <= s.len(),
    ensures
        pos <= end <= s.len(),
        a.len() > 0 ==> pos < end,
    decreases a.len(),
{
    if a.len() > 0 {
        let p = choose|p: int| #[trigger]
            token_at(s, pos, p, a[0]) && laid_out(s, p + a[0].len(), a.drop_first(), end);
        lemma_within(s, p + a[0].len(), a.drop_first(), end);
    }
}

proof fn lemma_skip(src: SourceView, pos: int, p: int)
    requires
        0 <= pos <= p <= src.chars.len(),
        forall|k: int|
            pos <= k < p ==> (#[trigger] src.chars[k] == ' ' || src.chars[k] == '\t'
                || src.chars[k] == '\r' || src.chars[k] == '\n'),
        p < src.chars.len() ==> !text::is_blank(src.chars[p]) && src.chars[p] != '/',
    ensures
        text::skip_blank(src, pos) == p,
    decreases p - pos,
{
    if pos < p {
        assert(text::is_blank(src.chars[pos]));
        lemma_skip(src, pos + 1, p);
    }
}

/// Behind the last token there is nothing to read.
pub proof fn lemma_rest_is_blank(src: SourceView, end: int)
    requires
        0 <= end <= src.chars.len(),
        forall|k: int|
            end <= k < src.chars.len() ==> (#[trigger] src.chars[k] == ' ' || src.chars[k] == '\t'
                || src.chars[k] == '\r' || src.chars[k] == '\n'),
    ensures
        text::skip_blank(src, end) == src.chars.len(),
        head(src, end) is None,
{
    lemma_skip(src, end, src.chars.len() as int);
}

/// Whether a character can begin a token.
pub open spec fn begins(c: char) -> bool {
    !(c == ' ' || c == '\t' || c == '\r' || c == '\n') && c != '/'
}

/// Where a token stands the grammars see it.
pub proof fn lemma_token(src: SourceView, pos: int, t: Seq<char>, end: int) -> (p: int)
    requires
        laid_out(src.chars, pos, seq![t], end),
        begins(t[0]),
    ensures
        token_at(src.chars, pos, p, t),
        end == p + t.len(),
        text::skip_blank(src, pos) == p,
        pos <= p < end <= src.chars.len(),
        head(src, pos) == Some(t[0]),
        src.chars[p] == t[0],
        src.chars.subrange(p, end) == t,
        forall|k: int| 0 <= k < t.len() ==> src.chars[p + k] == #[trigger] t[k],
{
    let one = seq![t];
    let p = choose|p: int| #[trigger]
        token_at(src.chars, pos, p, one[0]) && laid_out(
            src.chars,
            p + one[0].len(),
            one.drop_first(),
            end,
        );
    assert forall|k: int| 0 <= k < t.len() implies src.chars[p + k] == #[trigger] t[k] by {
        assert(src.chars.subrange(p, p + t.len())[k] == src.chars[p + k]);
    }
    assert(src.chars[p + 0] == t[0]);
    lemma_skip(src, pos, p);
    p
}

/// Tokens open with the first character of the first of them.
pub proof fn lemma_head(src: SourceView, pos: int, tokens: Seq<Seq<char>>, end: int)
    requires
        laid_out(src.chars, pos, tokens, end),
        tokens.len() > 0,
        begins(tokens[0][0]),
    ensures
        head(src, pos) == Some(tokens[0][0]),
{
    let t = tokens[0];
    assert(tokens =~= seq![t] + tokens.drop_first());
    let mid = lemma_split(src.chars, pos, seq![t], tokens.drop_first(), end);
    let p = lemma_token(src, pos, t, mid);
}

/// A word is read where it stands.
pub proof fn lemma_word(src: SourceView, pos: int, w: Seq<char>, end: int)
    requires
        laid_out(src.chars, pos, seq![w], end),
        begins(w[0]),
    ensures
        text::word_at(src, pos, w) == Some(end),
        pos < end <= src.chars.len(),
{
    let p = lemma_token(src, pos, w, end);
}

/// A word is not read where something else begins.
pub proof fn lemma_no_word(src: SourceView, pos: int, w: Seq<char>)
    requires
        w.len() > 0,
        0 <= pos <= src.chars.len(),
        head(src, pos) != Some(w[0]),
    ensures
        text::word_at(src, pos, w) is None,
{
    let p = text::skip_blank(src, pos);
    text::lemma_skip_blank(src, pos);
    if text::word_at(src, pos, w) is Some {
        assert(src.chars.subrange(p, p + w.len())[0] == src.chars[p]);
    }
}

proof fn lemma_run(s: Seq<char>, p: int, end: int)
    requires
        0 <= p <= end <= s.len(),
        forall|k: int| p <= k < end ==> joins(#[trigger] s[k]),
        end < s.len() ==> !joins(s[end]),
    ensures
        text::ident_end(s, p) == end,
    decreases end - p,
{
    if p < end {
        lemma_run(s, p + 1, end);
    }
}

proof fn lemma_digit_run(s: Seq<char>, p: int, end: int)
    requires
        0 <= p <= end <= s.len(),
        forall|k: int| p <= k < end ==> '0' <= #[trigger] s[k] && s[k] <= '9',
        end < s.len() ==> !('0' <= s[end] && s[end] <= '9'),
    ensures
        text::digits_end(s, p) == end,
    decreases end - p,
{
    if p < end {
        lemma_digit_run(s, p + 1, end);
    }
}

/// A name is read where it stands.
pub proof fn lemma_name(src: SourceView, pos: int, name: Seq<char>, end: int)
    requires
        laid_out(src.chars, pos, seq![name], end),
        is_name(name),
    ensures
        text::ident_at(src, pos) == Some((name, end)),
        head(src, pos) == Some(name[0]),
        pos < end <= src.chars.len(),
{
    assert(joins(name[0]));
    let p = lemma_token(src, pos, name, end);
    assert forall|k: int| p <= k < end implies joins(#[trigger] src.chars[k]) by {
        assert(src.chars[p + (k - p)] == name[k - p]);
    }
    lemma_run(src.chars, p + 1, end);
}

/// A name is not read where no letter and no underscore stands.
pub proof fn lemma_no_name(src: SourceView, pos: int)
    requires
        head(src, pos) matches Some(c) ==> !joins(c) || ('0' <= c && c <= '9'),
    ensures
        text::ident_at(src, pos) is None,
{
}

/// Digits write the same number as the grammars read.
pub proof fn lemma_written_number(s: Seq<char>)
    requires
        forall|i: int| 0 <= i < s.len() ==> '0' <= #[trigger] s[i] && s[i] <= '9',
    ensures
        text::decimal(s) == written_number(s),
    decreases s.len(),
{
    if s.len() > 0 {
        let shorter = s.drop_last();
        assert forall|i: int| 0 <= i < shorter.len() implies '0' <= #[trigger] shorter[i]
            && shorter[i] <= '9' by {
            assert(shorter[i] == s[i]);
        }
        lemma_written_number(shorter);
        let c = s[s.len() - 1];
        assert('0' <= c && c <= '9');
        assert(c as u32 == c as int);
        assert('0' as u32 == 48);
        assert(text::digit_value(c) == c as int - 48);
    }
}

/// A number is read where its digits stand.
pub proof fn lemma_number(
    src: SourceView,
    pos: int,
    digits: Seq<char>,
    n: int,
    end: int,
    max: int,
)
    requires
        laid_out(src.chars, pos, seq![digits], end),
        writes(digits, n),
        n <= max,
    ensures
        text::number_at(src, pos, max) == Some((n, end)),
        head(src, pos) == Some(digits[0]),
        pos < end <= src.chars.len(),
{
    let p = lemma_token(src, pos, digits, end);
    assert forall|k: int| p <= k < end implies '0' <= #[trigger] src.chars[k] && src.chars[k]
        <= '9' by {
        assert(src.chars[p + (k - p)] == digits[k - p]);
    }
    assert(joins(digits.last()));
    lemma_digit_run(src.chars, p, end);
    lemma_written_number(digits);
}

/// The run of digits of a part of a token.
pub proof fn lemma_digits_of_part(s: Seq<char>, p: int, end: int)
    requires
        0 <= p < end <= s.len(),
        is_digits(s.subrange(p, end)),
        end < s.len() ==> !('0' <= s[end] && s[end] <= '9'),
    ensures
        text::digits_at(s, p) == Some(end),
{
    let part = s.subrange(p, end);
    assert forall|k: int| p <= k < end implies '0' <= #[trigger] s[k] && s[k] <= '9' by {
        assert(part[k - p] == s[k]);
        assert('0' <= part[k - p] && part[k - p] <= '9');
    }
    lemma_digit_run(s, p, end);
}

proof fn lemma_quote_from(s: Seq<char>, p: int, q: int)
    requires
        0 <= p <= q < s.len(),
        forall|k: int| p <= k < q ==> #[trigger] s[k] != '"',
        s[q] == '"',
    ensures
        text::quote_from(s, p) == Some(q),
    decreases q - p,
{
    if p < q {
        lemma_quote_from(s, p + 1, q);
    }
}

/// A text in quotation marks is read where it stands.
pub proof fn lemma_quoted(src: SourceView, pos: int, s: Seq<char>, end: int)
    requires
        laid_out(src.chars, pos, seq![quoted(s)], end),
        is_quotable(s),
    ensures
        text::quoted_at(src, pos) == Some((s, end)),
        head(src, pos) == Some('"'),
        pos < end <= src.chars.len(),
{
    let t = quoted(s);
    let p = lemma_token(src, pos, t, end);
    assert forall|k: int| p + 1 <= k < end - 1 implies #[trigger] src.chars[k] != '"' by {
        assert(src.chars[p + (k - p)] == t[k - p]);
        assert(t[k - p] == s[k - p - 1]);
    }
    assert(src.chars[p + (t.len() - 1)] == t[t.len() - 1]);
    lemma_quote_from(src.chars, p + 1, end - 1);
    assert(src.chars.subrange(p + 1, end - 1) =~= s) by {
        assert forall|i: int| 0 <= i < s.len() implies src.chars.subrange(p + 1, end - 1)[i]
            == s[i] by {
            assert(src.chars[p + (i + 1)] == t[i + 1]);
        }
    }
}

/// No quoted text is read where no quotation mark stands.
pub proof fn lemma_no_quoted(src: SourceView, pos: int)
    requires
        head(src, pos) != Some('"'),
    ensures
        text::quoted_at(src, pos) is None,
{
}

/// Whether the character at `k` is blank, or stands in a comment that begins
/// at `i` or later, where comments can be written.
pub open spec fn covered(src: SourceView, i: int, k: int) -> bool {
    ||| src.chars[k] == ' ' || src.chars[k] == '\t' || src.chars[k] == '\r' || src.chars[k]
        == '\n'
    ||| src.comments && exists|c: int|
        i <= c <= k && c + 1 < src.chars.len() && #[trigger] src.chars[c] == '/' && src.chars[c + 1]
            == '/' && forall|m: int| c <= m <= k ==> #[trigger] src.chars[m] != '\n'
}

/// That nothing stands between two positions.
pub open spec fn gap(src: SourceView, i: int, j: int) -> bool {
    0 <= i <= j <= src.chars.len() && forall|k: int| i <= k < j ==> #[trigger] covered(src, i, k)
}

/// That a text stands up to `j`, with nothing between `i` and it.
pub open spec fn mark(src: SourceView, i: int, j: int, t: Seq<char>) -> bool {
    &&& t.len() > 0
    &&& j <= src.chars.len()
    &&& gap(src, i, j - t.len())
    &&& src.chars.subrange(j - t.len(), j) == t
}

/// That a name stands up to `j`, all of it.
pub open spec fn name(src: SourceView, i: int, j: int, n: Seq<char>) -> bool {
    is_name(n) && mark(src, i, j, n) && (j < src.chars.len() ==> !joins(src.chars[j]))
}

/// That digits stand up to `j`, all of them, and write a number.
pub open spec fn number(src: SourceView, i: int, j: int, n: int) -> bool {
    &&& exists|t: Seq<char>| #[trigger] writes(t, n) && mark(src, i, j, t)
    &&& j < src.chars.len() ==> !('0' <= src.chars[j] && src.chars[j] <= '9')
}

/// What is skipped is nothing.
pub proof fn lemma_gap(src: SourceView, pos: int)
    requires
        0 <= pos <= src.chars.len(),
    ensures
        gap(src, pos, text::skip_blank(src, pos)),
    decreases src.chars.len() - pos,
{
    let s = src.chars;
    let p = text::skip_blank(src, pos);
    if pos < s.len() && text::is_blank(s[pos]) {
        lemma_gap(src, pos + 1);
        assert forall|k: int| pos <= k < p implies #[trigger] covered(src, pos, k) by {
            if k > pos {
                assert(covered(src, pos + 1, k));
            }
        }
    } else if text::comment_at(src, pos) && pos < text::line_end(s, pos) <= s.len() {
        let e = text::line_end(s, pos);
        lemma_gap(src, e);
        lemma_line(s, pos);
        assert forall|k: int| pos <= k < p implies #[trigger] covered(src, pos, k) by {
            if k < e {
                assert(s[pos] == '/');
            } else {
                assert(covered(src, e, k));
            }
        }
    }
}

proof fn lemma_line(s: Seq<char>, pos: int)
    requires
        0 <= pos <= s.len(),
    ensures
        forall|m: int| pos <= m < text::line_end(s, pos) ==> #[trigger] s[m] != '\n',
    decreases s.len() - pos,
{
    if pos < s.len() && s[pos] != '\n' {
        lemma_line(s, pos + 1);
    }
}

/// A word that is read stands there.
pub proof fn lemma_read_word(src: SourceView, pos: int, w: Seq<char>)
    requires
        0 <= pos <= src.chars.len(),
        w.len() > 0,
    ensures
        text::word_at(src, pos, w) matches Some(j) ==> mark(src, pos, j, w) && pos < j
            <= src.chars.len(),
{
    lemma_gap(src, pos);
}

proof fn lemma_read_run(s: Seq<char>, pos: int)
    requires
        0 <= pos <= s.len(),
    ensures
        pos <= text::ident_end(s, pos) <= s.len(),
        forall|k: int| pos <= k < text::ident_end(s, pos) ==> joins(#[trigger] s[k]),
        text::ident_end(s, pos) < s.len() ==> !joins(s[text::ident_end(s, pos)]),
    decreases s.len() - pos,
{
    if pos < s.len() && text::is_ident_char(s[pos]) {
        lemma_read_run(s, pos + 1);
    }
}

proof fn lemma_read_digit_run(s: Seq<char>, pos: int)
    requires
        0 <= pos <= s.len(),
    ensures
        pos <= text::digits_end(s, pos) <= s.len(),
        forall|k: int|
            pos <= k < text::digits_end(s, pos) ==> '0' <= #[trigger] s[k] && s[k] <= '9',
        text::digits_end(s, pos) < s.len() ==> !('0' <= s[text::digits_end(s, pos)]
            && s[text::digits_end(s, pos)] <= '9'),
    decreases s.len() - pos,
{
    if pos < s.len() && text::is_digit(s[pos]) {
        lemma_read_digit_run(s, pos + 1);
    }
}

/// A name that is read stands there, all of it.
pub proof fn lemma_read_name(src: SourceView, pos: int)
    requires
        0 <= pos <= src.chars.len(),
    ensures
        text::ident_at(src, pos) matches Some((n, j)) ==> name(src, pos, j, n) && pos < j
            <= src.chars.len(),
{
    lemma_gap(src, pos);
    let p = text::skip_blank(src, pos);
    if let Some((n, j)) = text::ident_at(src, pos) {
        lemma_read_run(src.chars, p + 1);
        assert(n[0] == src.chars[p]);
        assert forall|i: int| 0 <= i < n.len() implies joins(#[trigger] n[i]) by {
            assert(n[i] == src.chars[p + i]);
        }
    }
}

/// Digits that are read stand there, all of them.
pub proof fn lemma_read_digits(s: Seq<char>, pos: int)
    requires
        0 <= pos <= s.len(),
    ensures
        text::digits_at(s, pos) matches Some(e) ==> pos < e <= s.len() && is_digits(
            s.subrange(pos, e),
        ) && text::decimal(s.subrange(pos, e)) == written_number(s.subrange(pos, e)) && (e < s.len()
            ==> !('0' <= s[e] && s[e] <= '9')),
{
    lemma_read_digit_run(s, pos);
    if let Some(e) = text::digits_at(s, pos) {
        let part = s.subrange(pos, e);
        assert forall|i: int| 0 <= i < part.len() implies '0' <= #[trigger] part[i] && part[i]
            <= '9' by {
            assert(part[i] == s[pos + i]);
        }
        lemma_written_number(part);
    }
}

/// A number that is read is the one that the digits write.
pub proof fn lemma_read_number(src: SourceView, pos: int, max: int)
    requires
        0 <= pos <= src.chars.len(),
    ensures
        text::number_at(src, pos, max) matches Some((n, j)) ==> number(src, pos, j, n) && pos < j
            <= src.chars.len() && 0 <= n <= max,
{
    lemma_gap(src, pos);
    let p = text::skip_blank(src, pos);
    lemma_read_digits(src.chars, p);
    if let Some((n, j)) = text::number_at(src, pos, max) {
        let t = src.chars.subrange(p, j);
        assert(writes(t, n) && mark(src, pos, j, t));
        assert forall|k: int| 0 <= k < t.len() implies text::is_digit(#[trigger] t[k]) by {
            assert('0' <= t[k] && t[k] <= '9');
        }
        text::lemma_decimal_nonnegative(t);
    }
}

proof fn lemma_read_quote_from(s: Seq<char>, pos: int)
    requires
        0 <= pos <= s.len(),
    ensures
        text::quote_from(s, pos) matches Some(q) ==> pos <= q < s.len() && s[q] == '"' && forall|
            k: int,
        |
            pos <= k < q ==> #[trigger] s[k] != '"',
    decreases s.len() - pos,
{
    if pos < s.len() && s[pos] != '"' {
        lemma_read_quote_from(s, pos + 1);
    }
}

/// A text that is read from quotation marks stands between them.
pub proof fn lemma_read_quoted(src: SourceView, pos: int)
    requires
        0 <= pos <= src.chars.len(),
    ensures
        text::quoted_at(src, pos) matches Some((v, j)) ==> is_quotable(v) && mark(
            src,
            pos,
            j,
            quoted(v),
        ) && pos < j <= src.chars.len(),
{
    lemma_gap(src, pos);
    let p = text::skip_blank(src, pos);
    if let Some((v, j)) = text::quoted_at(src, pos) {
        lemma_read_quote_from(src.chars, p + 1);
        assert(src.chars.subrange(p, j) =~= quoted(v));
        assert(quoted(v).len() == j - p);
        assert forall|i: int| 0 <= i < v.len() implies #[trigger] v[i] != '"' by {
            assert(v[i] == src.chars[p + 1 + i]);
        }
    }
}

/// A comment is passed over up to the end of its line, where comments can be
/// written, and blank space is passed over everywhere.
pub proof fn law_comments_and_blanks_are_passed_over(src: SourceView, pos: int, end: int)
    requires
        0 <= pos < end <= src.chars.len(),
    ensures
        src.comments && pos + 1 < end && src.chars[pos] == '/' && src.chars[pos + 1] == '/' && (
        forall|k: int| pos <= k < end ==> #[trigger] src.chars[k] != '\n') && (end
            == src.chars.len() || src.chars[end] == '\n') ==> text::skip_blank(src, pos)
            == text::skip_blank(src, end),
        (forall|k: int|
            pos <= k < end ==> (#[trigger] src.chars[k] == ' ' || src.chars[k] == '\t'
                || src.chars[k] == '\r' || src.chars[k] == '\n')) ==> text::skip_blank(src, pos)
            == text::skip_blank(src, end),
    decreases end - pos,
{
    let s = src.chars;
    if (forall|k: int|
        pos <= k < end ==> (#[trigger] s[k] == ' ' || s[k] == '\t' || s[k] == '\r' || s[k] == '\n'))
        && pos + 1 < end {
        law_comments_and_blanks_are_passed_over(src, pos + 1, end);
    }
    if (forall|k: int| pos <= k < end ==> #[trigger] s[k] != '\n') && (end == s.len() || s[end]
        == '\n') {
        lemma_line_ends(s, pos, end);
        assert(s[pos] == s[pos]);
    }
}

proof fn lemma_line_ends(s: Seq<char>, pos: int, end: int)
    requires
        0 <= pos <= end <= s.len(),
        forall|k: int| pos <= k < end ==> #[trigger] s[k] != '\n',
        end == s.len() || s[end] == '\n',
    ensures
        text::line_end(s, pos) == end,
    decreases end - pos,
{
    if pos < end {
        lemma_line_ends(s, pos + 1, end);
    }
}

} // verus!
