//! Small values written as text, as they stand in annotations and in the
//! environment of a process: lists, trimmed words, numbers.
use crate::layout;
use crate::text;
use vstd::prelude::*;
use vstd::string::*;

verus! {

/// The parts of a text between separators. A text without one is one part.
pub open spec fn parts(s: Seq<char>, sep: char) -> Seq<Seq<char>>
    decreases s.len(),
{
    if s.len() == 0 {
        seq![seq![]]
    } else {
        let rest = parts(s.drop_last(), sep);
        if s.last() == sep {
            rest.push(seq![])
        } else {
            rest.drop_last().push(rest.last().push(s.last()))
        }
    }
}

/// Splits a text at each separator.
pub fn split(s: &str, sep: char) -> (r: Vec<String>)
    ensures
        text::views(r@) == parts(s@, sep),
{
    let chars = text::chars_of(s);
    let ghost all = s@;
    let mut done: Vec<String> = Vec::new();
    let mut start: usize = 0;
    let mut i: usize = 0;
    assert(all.take(0) =~= Seq::<char>::empty());
    assert(all.subrange(0, 0) =~= Seq::<char>::empty());
    assert(text::views(done@).push(all.subrange(0, 0)) =~= parts(all.take(0), sep));
    while i < chars.len()
        invariant
            start <= i <= chars@.len(),
            chars@ == all,
            all == s@,
            parts(all.take(i as int), sep) == text::views(done@).push(
                all.subrange(start as int, i as int),
            ),
        decreases chars.len() - i,
    {
        assert(all.take(i + 1).drop_last() =~= all.take(i as int));
        assert(all.take(i + 1).last() == chars@[i as int]);
        let ghost before = text::views(done@);
        let ghost open = all.subrange(start as int, i as int);
        assert(before.push(open).drop_last() =~= before);
        if chars[i] == sep {
            let part = s.substring_char(start, i).to_owned();
            proof {
                text::lemma_views_push(done@, part);
            }
            done.push(part);
            start = i + 1;
            assert(all.subrange(start as int, i + 1) =~= Seq::<char>::empty());
        } else {
            assert(all.subrange(start as int, i + 1) =~= open.push(chars@[i as int]));
        }
        i = i + 1;
    }
    assert(all.take(all.len() as int) =~= all);
    let part = s.substring_char(start, i).to_owned();
    proof {
        text::lemma_views_push(done@, part);
    }
    done.push(part);
    done
}

/// The first place of a character.
pub open spec fn place_of(s: Seq<char>, c: char) -> Option<int>
    decreases s.len(),
{
    if s.len() == 0 {
        None
    } else if s[0] == c {
        Some(0)
    } else {
        match place_of(s.drop_first(), c) {
            Some(i) => Some(i + 1),
            None => None,
        }
    }
}

/// What stands before and behind the first place of a character.
pub open spec fn halves(s: Seq<char>, c: char) -> Option<(Seq<char>, Seq<char>)> {
    match place_of(s, c) {
        Some(i) => Some((s.take(i), s.skip(i + 1))),
        None => None,
    }
}

proof fn lemma_place_of(s: Seq<char>, c: char, i: int)
    requires
        0 <= i < s.len(),
        s[i] == c,
        forall|k: int| 0 <= k < i ==> s[k] != c,
    ensures
        place_of(s, c) == Some(i),
    decreases s.len(),
{
    if i > 0 {
        lemma_place_of(s.drop_first(), c, i - 1);
    }
}

proof fn lemma_no_place(s: Seq<char>, c: char)
    requires
        forall|k: int| 0 <= k < s.len() ==> s[k] != c,
    ensures
        place_of(s, c) is None,
    decreases s.len(),
{
    if s.len() > 0 {
        lemma_no_place(s.drop_first(), c);
    }
}

/// Splits a text at the first place of a character.
pub fn split_once(s: &str, c: char) -> (r: Option<(String, String)>)
    ensures
        match r {
            Some((a, b)) => halves(s@, c) == Some((a@, b@)),
            None => halves(s@, c) is None,
        },
{
    let chars = text::chars_of(s);
    let mut i: usize = 0;
    while i < chars.len()
        invariant
            i <= chars@.len(),
            chars@ == s@,
            forall|k: int| 0 <= k < i ==> s@[k] != c,
        decreases chars.len() - i,
    {
        if chars[i] == c {
            proof {
                lemma_place_of(s@, c, i as int);
                assert(s@.subrange(0, i as int) =~= s@.take(i as int));
                assert(s@.subrange(i + 1, s@.len() as int) =~= s@.skip(i + 1));
            }
            return Some(
                (
                    s.substring_char(0, i).to_owned(),
                    s.substring_char(i + 1, chars.len()).to_owned(),
                ),
            );
        }
        i = i + 1;
    }
    proof {
        lemma_no_place(s@, c);
    }
    None
}

/// The characters that Unicode counts as white space.
pub open spec fn is_space(c: char) -> bool {
    ||| '\u{9}' <= c <= '\u{d}'
    ||| c == ' '
    ||| c == '\u{85}'
    ||| c == '\u{a0}'
    ||| c == '\u{1680}'
    ||| '\u{2000}' <= c <= '\u{200a}'
    ||| c == '\u{2028}'
    ||| c == '\u{2029}'
    ||| c == '\u{202f}'
    ||| c == '\u{205f}'
    ||| c == '\u{3000}'
}

fn space(c: char) -> (r: bool)
    ensures
        r == is_space(c),
{
    ('\u{9}' <= c && c <= '\u{d}') || c == ' ' || c == '\u{85}' || c == '\u{a0}' || c == '\u{1680}'
        || ('\u{2000}' <= c && c <= '\u{200a}') || c == '\u{2028}' || c == '\u{2029}' || c
        == '\u{202f}' || c == '\u{205f}' || c == '\u{3000}'
}

/// A text without white space at its ends.
pub open spec fn trimmed(s: Seq<char>) -> Seq<char>
    decreases s.len(),
{
    if s.len() == 0 {
        s
    } else if is_space(s[0]) {
        trimmed(s.drop_first())
    } else if is_space(s.last()) {
        trimmed(s.drop_last())
    } else {
        s
    }
}

/// Removes white space at both ends.
pub fn trim(s: &str) -> (r: String)
    ensures
        r@ == trimmed(s@),
{
    let chars = text::chars_of(s);
    let ghost all = s@;
    let mut a: usize = 0;
    let mut b: usize = chars.len();
    assert(all.subrange(0, all.len() as int) =~= all);
    while a < b && space(chars[a])
        invariant
            a <= b == chars@.len(),
            chars@ == all,
            trimmed(all) == trimmed(all.subrange(a as int, b as int)),
        decreases b - a,
    {
        let ghost here = all.subrange(a as int, b as int);
        assert(here.drop_first() =~= all.subrange(a + 1, b as int));
        a = a + 1;
    }
    while a < b && space(chars[b - 1])
        invariant
            a <= b <= chars@.len(),
            chars@ == all,
            a < b ==> !is_space(all[a as int]),
            trimmed(all) == trimmed(all.subrange(a as int, b as int)),
        decreases b - a,
    {
        let ghost here = all.subrange(a as int, b as int);
        assert(here[0] == all[a as int]);
        assert(here.last() == all[b - 1]);
        assert(here.drop_last() =~= all.subrange(a as int, b - 1));
        b = b - 1;
    }
    proof {
        let here = all.subrange(a as int, b as int);
        if a < b {
            assert(here[0] == all[a as int]);
            assert(here.last() == all[b - 1]);
        }
    }
    s.substring_char(a, b).to_owned()
}

/// Whether a text is made of digits only.
pub open spec fn all_digits(s: Seq<char>) -> bool {
    forall|i: int| 0 <= i < s.len() ==> text::is_digit(#[trigger] s[i])
}

/// The number that a text writes: digits, a plus sign before them at most,
/// and no more than `max`.
pub open spec fn unsigned_of(s: Seq<char>, max: int) -> Option<int> {
    let digits = if s.len() > 0 && s[0] == '+' {
        s.drop_first()
    } else {
        s
    };
    if digits.len() > 0 && all_digits(digits) && text::decimal(digits) <= max {
        Some(text::decimal(digits))
    } else {
        None
    }
}

/// Reads a number.
pub fn parse_unsigned(s: &str, max: u64) -> (r: Option<u64>)
    ensures
        match r {
            Some(n) => unsigned_of(s@, max as int) == Some(n as int) && n <= max,
            None => unsigned_of(s@, max as int) is None,
        },
{
    let src = text::Source::new(s, false);
    let n: usize = src.chars.len();
    let from: usize = if n > 0 && src.chars[0] == '+' {
        1
    } else {
        0
    };
    let ghost digits = s@.subrange(from as int, n as int);
    assert(digits =~= if s@.len() > 0 && s@[0] == '+' {
        s@.drop_first()
    } else {
        s@
    });
    if from == n {
        return None;
    }
    let mut i: usize = from;
    while i < n
        invariant
            src.wf(),
            from <= i <= n,
            n == src@.chars.len(),
            src@.chars == s@,
            digits == s@.subrange(from as int, n as int),
            digits == if s@.len() > 0 && s@[0] == '+' {
                s@.drop_first()
            } else {
                s@
            },
            forall|k: int| from <= k < i ==> text::is_digit(#[trigger] s@[k]),
        decreases n - i,
    {
        if !('0' <= src.chars[i] && src.chars[i] <= '9') {
            assert(digits[i - from] == s@[i as int]);
            assert(!text::is_digit(digits[i - from]));
            return None;
        }
        i = i + 1;
    }
    assert forall|k: int| 0 <= k < digits.len() implies text::is_digit(#[trigger] digits[k]) by {
        assert(digits[k] == s@[from + k]);
    }
    text::decimal_exec(&src, from, n, max)
}

/// A text as a programmer would write it: between quotation marks, with
/// escapes.
pub uninterp spec fn debug_of(s: Seq<char>) -> Seq<char>;

/// `std::fmt::Debug` of a `str`, through `format!`: a function of the
/// characters alone. Its value is named `debug_of`; nothing else is claimed
/// of it.
#[verifier::external_body]
pub(crate) fn debug_text(s: &str) -> (r: String)
    ensures
        r@ == debug_of(s@),
{
    format!("{:?}", s)
}

/// What numbers are written as, they are read from.
pub proof fn law_written_numbers_read_back(n: int, max: int)
    requires
        0 <= n <= max,
    ensures
        unsigned_of(text::decimal_text(n), max) == Some(n),
{
    text::law_decimal_text_reads_back(n);
    lemma_decimal_text_digits(n);
}

proof fn lemma_decimal_text_digits(n: int)
    requires
        0 <= n,
    ensures
        all_digits(text::decimal_text(n)),
        text::decimal_text(n).len() > 0,
        text::decimal_text(n)[0] != '+',
    decreases n,
{
    if n >= 10 {
        lemma_decimal_text_digits(n / 10);
    }
}

/// Texts one behind the other, with a character between each two.
pub open spec fn joined(texts: Seq<Seq<char>>, sep: char) -> Seq<char>
    decreases texts.len(),
{
    if texts.len() == 0 {
        seq![]
    } else if texts.len() == 1 {
        texts[0]
    } else {
        joined(texts.drop_last(), sep).push(sep) + texts.last()
    }
}

/// The parts of a text hold no separator, and with separators between them they
/// are the text.
pub proof fn law_parts_make_up_the_text(s: Seq<char>, sep: char)
    ensures
        parts(s, sep).len() > 0,
        joined(parts(s, sep), sep) == s,
        forall|k: int|
            0 <= k < parts(s, sep).len() ==> !(#[trigger] parts(s, sep)[k]).contains(sep),
    decreases s.len(),
{
    if s.len() > 0 {
        let shorter = s.drop_last();
        let rest = parts(shorter, sep);
        let all = parts(s, sep);
        law_parts_make_up_the_text(shorter, sep);
        assert(s =~= shorter.push(s.last()));
        if s.last() == sep {
            assert(all.drop_last() =~= rest);
            assert(joined(all, sep) =~= s);
        } else {
            let longer = rest.last().push(s.last());
            assert(all.drop_last() =~= rest.drop_last());
            assert(all.last() == longer);
            assert(rest[rest.len() - 1] == rest.last());
            assert(joined(all, sep) =~= s);
            assert forall|k: int| 0 <= k < all.len() implies !(#[trigger] all[k]).contains(
                sep,
            ) by {
                if k < rest.len() - 1 {
                    assert(all[k] == rest[k]);
                } else if longer.contains(sep) {
                    let i = choose|i: int| 0 <= i < longer.len() && longer[i] == sep;
                    assert(rest.last()[i] == sep);
                    assert(rest.last().contains(sep));
                }
            }
        }
    }
}

/// Texts without a separator that are joined by it are split into these texts.
pub proof fn law_joined_texts_are_split(texts: Seq<Seq<char>>, sep: char)
    requires
        texts.len() > 0,
        forall|k: int| 0 <= k < texts.len() ==> !(#[trigger] texts[k]).contains(sep),
    ensures
        parts(joined(texts, sep), sep) == texts,
    decreases texts.len(), texts.last().len(),
{
    let last = texts.last();
    assert(texts[texts.len() - 1] == last);
    if last.len() > 0 {
        let shorter = last.drop_last();
        let fewer = texts.drop_last().push(shorter);
        assert forall|k: int| 0 <= k < fewer.len() implies !(#[trigger] fewer[k]).contains(sep) by {
            if k < texts.len() - 1 {
                assert(fewer[k] == texts[k]);
            } else if shorter.contains(sep) {
                let i = choose|i: int| 0 <= i < shorter.len() && shorter[i] == sep;
                assert(last[i] == sep);
            }
        }
        law_joined_texts_are_split(fewer, sep);
        assert(fewer.drop_last() =~= texts.drop_last());
        let s = joined(texts, sep);
        assert(s.drop_last() =~= joined(fewer, sep));
        assert(s.last() == last.last());
        assert(last[last.len() - 1] == last.last());
        assert(last.contains(last.last()));
        assert(shorter.push(last.last()) =~= last);
        assert(parts(s, sep) =~= texts);
    } else if texts.len() == 1 {
        assert(joined(texts, sep) =~= Seq::<char>::empty());
        assert(texts =~= seq![Seq::<char>::empty()]);
    } else {
        let fewer = texts.drop_last();
        assert forall|k: int| 0 <= k < fewer.len() implies !(#[trigger] fewer[k]).contains(sep) by {
            assert(fewer[k] == texts[k]);
        }
        law_joined_texts_are_split(fewer, sep);
        let s = joined(texts, sep);
        assert(s =~= joined(fewer, sep).push(sep));
        assert(s.drop_last() =~= joined(fewer, sep));
        assert(last =~= Seq::<char>::empty());
        assert(parts(s, sep) =~= texts);
    }
}

/// A text is split at a character exactly into what stands before its first
/// place and what stands behind it.
pub proof fn law_a_text_is_split_at_the_first_place(
    s: Seq<char>,
    c: char,
    a: Seq<char>,
    b: Seq<char>,
)
    ensures
        halves(s, c) == Some((a, b)) <==> s == a.push(c) + b && !a.contains(c),
        halves(s, c) is None <==> !s.contains(c),
{
    if s.contains(c) {
        let i = lemma_first_place(s, c);
        lemma_place_of(s, c, i);
        assert(s =~= s.take(i).push(c) + s.skip(i + 1));
        if s == a.push(c) + b && !a.contains(c) {
            assert(s[a.len() as int] == c);
            assert forall|k: int| 0 <= k < a.len() implies s[k] != c by {
                assert(a[k] == s[k]);
                if a[k] == c {
                    assert(a.contains(c));
                }
            }
            if i < a.len() {
                assert(s[i] != c);
            }
            if a.len() < i {
                assert(s[a.len() as int] != c);
            }
            assert(s.take(i) =~= a);
            assert(s.skip(i + 1) =~= b);
        }
        if s.take(i).contains(c) {
            let k = choose|k: int| 0 <= k < i && s.take(i)[k] == c;
            assert(s[k] == c);
        }
    } else {
        lemma_no_place(s, c);
        if s == a.push(c) + b {
            assert(s[a.len() as int] == c);
        }
    }
}

proof fn lemma_first_place(s: Seq<char>, c: char) -> (i: int)
    requires
        s.contains(c),
    ensures
        0 <= i < s.len(),
        s[i] == c,
        forall|k: int| 0 <= k < i ==> s[k] != c,
    decreases s.len(),
{
    if s[0] == c {
        0
    } else {
        let rest = s.drop_first();
        let j = choose|j: int| 0 <= j < s.len() && s[j] == c;
        assert(rest[j - 1] == c);
        let i = lemma_first_place(rest, c);
        assert forall|k: int| 0 <= k < i + 1 implies s[k] != c by {
            if k > 0 {
                assert(rest[k - 1] == s[k]);
            }
        }
        i + 1
    }
}

/// Trimming takes away white space at both ends, and nothing else: a text that
/// begins and ends with something else comes out of any white space around it.
pub proof fn law_white_space_is_trimmed(before: Seq<char>, s: Seq<char>, after: Seq<char>)
    requires
        forall|k: int| 0 <= k < before.len() ==> is_space(#[trigger] before[k]),
        forall|k: int| 0 <= k < after.len() ==> is_space(#[trigger] after[k]),
        s.len() > 0 ==> !is_space(s[0]) && !is_space(s.last()),
    ensures
        trimmed(before + s + after) == s,
    decreases before.len() + after.len(),
{
    let all = before + s + after;
    if before.len() > 0 {
        let rest = before.drop_first();
        assert(is_space(before[0]));
        assert(all[0] == before[0]);
        assert(all.drop_first() =~= rest + s + after);
        assert forall|k: int| 0 <= k < rest.len() implies is_space(#[trigger] rest[k]) by {
            assert(rest[k] == before[k + 1]);
        }
        law_white_space_is_trimmed(rest, s, after);
    } else if after.len() > 0 {
        let rest = after.drop_last();
        assert(is_space(after[after.len() - 1]));
        assert(all.last() == after[after.len() - 1]);
        assert(all.drop_last() =~= before + s + rest);
        assert forall|k: int| 0 <= k < rest.len() implies is_space(#[trigger] rest[k]) by {
            assert(rest[k] == after[k]);
        }
        if s.len() > 0 {
            assert(all[0] == s[0]);
            law_white_space_is_trimmed(before, s, rest);
        } else {
            assert(is_space(after[0]));
            assert(all[0] == after[0]);
            let later = after.drop_first();
            assert forall|k: int| 0 <= k < later.len() implies is_space(#[trigger] later[k]) by {
                assert(later[k] == after[k + 1]);
            }
            assert(all.drop_first() =~= before + s + later);
            law_white_space_is_trimmed(before, s, later);
        }
    } else {
        assert(all =~= s);
    }
}

/// Blanks, tabs and line ends are white space; letters, digits and signs are
/// not.
pub proof fn law_what_white_space_is(c: char)
    ensures
        c == ' ' || c == '\t' || c == '\n' || c == '\r' ==> is_space(c),
        '!' <= c && c <= '~' ==> !is_space(c),
{
}

/// A text reads as a number exactly where it is digits that write it, with a
/// plus sign before them or none, and the number is not too large.
pub proof fn law_a_number_is_what_its_digits_write(s: Seq<char>, max: int, n: int)
    ensures
        unsigned_of(s, max) == Some(n) <==> n <= max && (layout::writes(s, n) || (s.len() > 0
            && s[0] == '+' && layout::writes(s.drop_first(), n))),
{
    let digits = if s.len() > 0 && s[0] == '+' {
        s.drop_first()
    } else {
        s
    };
    if all_digits(digits) {
        assert forall|i: int| 0 <= i < digits.len() implies '0' <= #[trigger] digits[i]
            && digits[i] <= '9' by {
            assert(text::is_digit(digits[i]));
        }
        layout::lemma_written_number(digits);
    }
    if layout::is_digits(digits) {
        assert forall|i: int| 0 <= i < digits.len() implies text::is_digit(
            #[trigger] digits[i],
        ) by {
            assert('0' <= digits[i] && digits[i] <= '9');
        }
        layout::lemma_written_number(digits);
    }
    if s.len() > 0 && s[0] == '+' {
        assert(!layout::is_digits(s)) by {
            if layout::is_digits(s) {
                assert('0' <= s[0] && s[0] <= '9');
            }
        }
    }
}

/// The digits that are written for a number write it.
pub proof fn law_decimal_text_writes_the_number(n: int)
    requires
        0 <= n,
    ensures
        layout::writes(text::decimal_text(n), n),
{
    lemma_decimal_text_digits(n);
    text::law_decimal_text_reads_back(n);
    let s = text::decimal_text(n);
    assert forall|i: int| 0 <= i < s.len() implies '0' <= #[trigger] s[i] && s[i] <= '9' by {
        assert(text::is_digit(s[i]));
    }
    layout::lemma_written_number(s);
}

} // verus!
