//! Character-level building blocks shared by the schema language and the
//! query language: comparison of strings, blank space, identifiers, numbers
//! and quoted strings, each specified on character sequences.
use vstd::prelude::*;
use vstd::string::*;

verus! {

/// The views of a sequence of values, element by element.
pub open spec fn views<T: View>(items: Seq<T>) -> Seq<T::V> {
    Seq::new(items.len(), |i: int| items[i]@)
}

pub proof fn lemma_views_push<T: View>(items: Seq<T>, x: T)
    ensures
        views(items.push(x)) == views(items).push(x@),
{
    assert(views(items.push(x)) =~= views(items).push(x@));
}

/// The view of an optional value.
pub open spec fn option_view<T: View>(o: Option<T>) -> Option<T::V> {
    match o {
        Some(x) => Some(x@),
        None => None,
    }
}

/// A value that can be copied with its view.
pub trait Duplicate: View + Sized {
    fn duplicate(&self) -> (r: Self)
        ensures
            r@ == self@,
    ;
}

impl Duplicate for String {
    fn duplicate(&self) -> (r: Self) {
        self.clone()
    }
}

/// A copy of a vector, element by element.
pub fn duplicate_all<T: Duplicate>(items: &Vec<T>) -> (r: Vec<T>)
    ensures
        r@.len() == items@.len(),
        views(r@) == views(items@),
{
    let mut out: Vec<T> = Vec::new();
    let mut i: usize = 0;
    while i < items.len()
        invariant
            i <= items.len(),
            out@.len() == i,
            forall|k: int| 0 <= k < i ==> (#[trigger] out@[k])@ == items@[k]@,
        decreases items.len() - i,
    {
        out.push(items[i].duplicate());
        i = i + 1;
    }
    assert(views(out@) =~= views(items@));
    out
}

/// A copy of an optional value.
pub fn duplicate_option<T: Duplicate>(o: &Option<T>) -> (r: Option<T>)
    ensures
        option_view(r) == option_view(*o),
{
    match o {
        Some(x) => Some(x.duplicate()),
        None => None,
    }
}

/// The characters of a string, in order.
pub fn chars_of(s: &str) -> (r: Vec<char>)
    ensures
        r@ == s@,
{
    let mut out: Vec<char> = Vec::new();
    for c in it: s.chars()
        invariant
            it.seq() == s@,
            out@ == s@.take(it.index()),
    {
        out.push(c);
        assert(s@.take(it.index() + 1) =~= s@.take(it.index()).push(s@[it.index()]));
    }
    assert(s@.take(s@.len() as int) =~= s@);
    out
}

/// Whether two strings hold the same characters.
pub fn str_eq(a: &str, b: &str) -> (r: bool)
    ensures
        r == (a@ == b@),
{
    let ca = chars_of(a);
    let cb = chars_of(b);
    if ca.len() != cb.len() {
        return false;
    }
    let mut i: usize = 0;
    while i < ca.len()
        invariant
            i <= ca.len(),
            ca.len() == cb.len(),
            ca@ == a@,
            cb@ == b@,
            forall|k: int| 0 <= k < i ==> ca@[k] == cb@[k],
        decreases ca.len() - i,
    {
        if ca[i] != cb[i] {
            assert(a@[i as int] != b@[i as int]);
            return false;
        }
        i = i + 1;
    }
    assert(a@ =~= b@);
    true
}

/// Lexicographic order of character sequences by code point.
pub open spec fn lex_lt(a: Seq<char>, b: Seq<char>) -> bool
    decreases a.len(),
{
    if b.len() == 0 {
        false
    } else if a.len() == 0 {
        true
    } else if a[0] != b[0] {
        a[0] < b[0]
    } else {
        lex_lt(a.drop_first(), b.drop_first())
    }
}

/// Whether the first string comes before the second one.
pub fn str_less(a: &str, b: &str) -> (r: bool)
    ensures
        r == lex_lt(a@, b@),
{
    let ca = chars_of(a);
    let cb = chars_of(b);
    let mut i: usize = 0;
    assert(a@.skip(0) =~= a@);
    assert(b@.skip(0) =~= b@);
    while i < ca.len() && i < cb.len()
        invariant
            i <= ca.len(),
            i <= cb.len(),
            ca@ == a@,
            cb@ == b@,
            lex_lt(a@, b@) == lex_lt(a@.skip(i as int), b@.skip(i as int)),
        decreases ca.len() - i,
    {
        let x: char = ca[i];
        let y: char = cb[i];
        assert(a@.skip(i as int)[0] == x);
        assert(b@.skip(i as int)[0] == y);
        if x != y {
            return x < y;
        }
        assert(a@.skip(i as int).drop_first() =~= a@.skip(i + 1));
        assert(b@.skip(i as int).drop_first() =~= b@.skip(i + 1));
        i = i + 1;
    }
    i < cb.len()
}

/// The order of strings is irreflexive.
pub proof fn lemma_lex_irreflexive(a: Seq<char>)
    ensures
        !lex_lt(a, a),
    decreases a.len(),
{
    if a.len() > 0 {
        lemma_lex_irreflexive(a.drop_first());
    }
}

/// Of two different strings one comes first.
pub proof fn lemma_lex_total(a: Seq<char>, b: Seq<char>)
    ensures
        lex_lt(a, b) || lex_lt(b, a) || a == b,
    decreases a.len(),
{
    if a.len() > 0 && b.len() > 0 && a[0] == b[0] {
        lemma_lex_total(a.drop_first(), b.drop_first());
        if a.drop_first() == b.drop_first() {
            assert(a =~= seq![a[0]] + a.drop_first());
            assert(b =~= seq![b[0]] + b.drop_first());
        }
    } else if a.len() == 0 && b.len() == 0 {
        assert(a =~= b);
    }
}

/// The order of strings is transitive.
pub proof fn lemma_lex_transitive(a: Seq<char>, b: Seq<char>, c: Seq<char>)
    requires
        lex_lt(a, b),
        lex_lt(b, c),
    ensures
        lex_lt(a, c),
    decreases a.len(),
{
    if a.len() > 0 && b.len() > 0 && c.len() > 0 && a[0] == b[0] && b[0] == c[0] {
        lemma_lex_transitive(a.drop_first(), b.drop_first(), c.drop_first());
    }
}

/// A source text as the grammars read it. Where `comments` is set, `//` and
/// what follows it on the line is blank space.
pub struct SourceView {
    pub chars: Seq<char>,
    pub comments: bool,
}

/// A source text held with its characters.
pub struct Source<'a> {
    pub text: &'a str,
    pub chars: Vec<char>,
    pub comments: bool,
}

impl<'a> View for Source<'a> {
    type V = SourceView;

    open spec fn view(&self) -> SourceView {
        SourceView { chars: self.text@, comments: self.comments }
    }
}

impl<'a> Source<'a> {
    pub open spec fn wf(&self) -> bool {
        self.chars@ == self.text@
    }

    pub fn new(text: &'a str, comments: bool) -> (r: Source<'a>)
        ensures
            r.wf(),
            r@ == (SourceView { chars: text@, comments }),
    {
        Source { text, chars: chars_of(text), comments }
    }

    /// The text between two positions.
    pub fn slice(&self, from: usize, to: usize) -> (r: String)
        requires
            self.wf(),
            from <= to <= self@.chars.len(),
        ensures
            r@ == self@.chars.subrange(from as int, to as int),
    {
        self.text.substring_char(from, to).to_owned()
    }
}

pub open spec fn is_blank(c: char) -> bool {
    c == ' ' || c == '\t' || c == '\r' || c == '\n'
}

pub open spec fn is_digit(c: char) -> bool {
    '0' <= c && c <= '9'
}

pub open spec fn is_ident_start(c: char) -> bool {
    ('a' <= c && c <= 'z') || ('A' <= c && c <= 'Z') || c == '_'
}

pub open spec fn is_ident_char(c: char) -> bool {
    is_ident_start(c) || is_digit(c)
}

/// Where the line that holds `pos` ends.
pub open spec fn line_end(s: Seq<char>, pos: int) -> int
    decreases s.len() - pos,
{
    if 0 <= pos < s.len() && s[pos] != '\n' {
        line_end(s, pos + 1)
    } else {
        pos
    }
}

pub proof fn lemma_line_end(s: Seq<char>, pos: int)
    requires
        0 <= pos <= s.len(),
    ensures
        pos <= line_end(s, pos) <= s.len(),
    decreases s.len() - pos,
{
    if pos < s.len() && s[pos] != '\n' {
        lemma_line_end(s, pos + 1);
    }
}

pub open spec fn comment_at(src: SourceView, pos: int) -> bool {
    src.comments && 0 <= pos && pos + 1 < src.chars.len() && src.chars[pos] == '/'
        && src.chars[pos + 1] == '/'
}

/// The first position from `pos` on that is neither blank nor in a comment.
pub open spec fn skip_blank(src: SourceView, pos: int) -> int
    decreases src.chars.len() - pos,
{
    if 0 <= pos < src.chars.len() && is_blank(src.chars[pos]) {
        skip_blank(src, pos + 1)
    } else if comment_at(src, pos) && pos < line_end(src.chars, pos) <= src.chars.len() {
        skip_blank(src, line_end(src.chars, pos))
    } else {
        pos
    }
}

pub proof fn lemma_skip_blank(src: SourceView, pos: int)
    requires
        0 <= pos <= src.chars.len(),
    ensures
        pos <= skip_blank(src, pos) <= src.chars.len(),
    decreases src.chars.len() - pos,
{
    if pos < src.chars.len() && is_blank(src.chars[pos]) {
        lemma_skip_blank(src, pos + 1);
    } else if comment_at(src, pos) && pos < line_end(src.chars, pos) <= src.chars.len() {
        lemma_line_end(src.chars, pos);
        lemma_skip_blank(src, line_end(src.chars, pos));
    }
}

pub fn skip_blank_exec(src: &Source, pos: usize) -> (r: usize)
    requires
        src.wf(),
        pos <= src@.chars.len(),
    ensures
        r == skip_blank(src@, pos as int),
        pos <= r <= src@.chars.len(),
{
    let mut p: usize = pos;
    loop
        invariant
            src.wf(),
            pos <= p <= src@.chars.len(),
            skip_blank(src@, pos as int) == skip_blank(src@, p as int),
        decreases src@.chars.len() - p,
    {
        if p < src.chars.len() && (src.chars[p] == ' ' || src.chars[p] == '\t' || src.chars[p]
            == '\r' || src.chars[p] == '\n') {
            p = p + 1;
        } else if src.comments && p < src.chars.len() && src.chars.len() - p > 1 && src.chars[p] == '/' && src.chars[p + 1]
            == '/' {
            let mut q: usize = p;
            while q < src.chars.len() && src.chars[q] != '\n'
                invariant
                    src.wf(),
                    p <= q <= src.chars.len(),
                    line_end(src@.chars, p as int) == line_end(src@.chars, q as int),
                decreases src.chars.len() - q,
            {
                q = q + 1;
            }
            proof {
                lemma_line_end(src@.chars, p + 1);
            }
            p = q;
        } else {
            return p;
        }
    }
}

/// The literal `word` after blank space: the position behind it.
pub open spec fn word_at(src: SourceView, pos: int, word: Seq<char>) -> Option<int> {
    let p = skip_blank(src, pos);
    if p + word.len() <= src.chars.len() && src.chars.subrange(p, p + word.len()) == word {
        Some(p + word.len())
    } else {
        None
    }
}

pub fn word_at_exec(src: &Source, pos: usize, word: &str) -> (r: Option<usize>)
    requires
        src.wf(),
        pos <= src@.chars.len(),
    ensures
        match r {
            Some(p) => word_at(src@, pos as int, word@) == Some(p as int) && pos <= p
                <= src@.chars.len() && pos + word@.len() <= p,
            None => word_at(src@, pos as int, word@) is None,
        },
{
    let p = skip_blank_exec(src, pos);
    let w = chars_of(word);
    if w.len() > src.chars.len() - p {
        return None;
    }
    let mut i: usize = 0;
    while i < w.len()
        invariant
            src.wf(),
            w@ == word@,
            i <= w.len(),
            p <= src.chars.len(),
            w.len() <= src.chars.len() - p,
            p == skip_blank(src@, pos as int),
            forall|k: int| 0 <= k < i ==> src@.chars[p + k] == word@[k],
        decreases w.len() - i,
    {
        if src.chars[p + i] != w[i] {
            assert(src@.chars.subrange(p as int, p + word@.len())[i as int] != word@[i as int]);
            return None;
        }
        i = i + 1;
    }
    assert(src@.chars.subrange(p as int, p + word@.len()) =~= word@);
    Some(p + w.len())
}

/// Where the run of identifier characters from `pos` on ends.
pub open spec fn ident_end(s: Seq<char>, pos: int) -> int
    decreases s.len() - pos,
{
    if 0 <= pos < s.len() && is_ident_char(s[pos]) {
        ident_end(s, pos + 1)
    } else {
        pos
    }
}

/// An identifier after blank space: its text and the position behind it.
pub open spec fn ident_at(src: SourceView, pos: int) -> Option<(Seq<char>, int)> {
    let p = skip_blank(src, pos);
    if 0 <= p < src.chars.len() && is_ident_start(src.chars[p]) {
        let e = ident_end(src.chars, p + 1);
        Some((src.chars.subrange(p, e), e))
    } else {
        None
    }
}

fn ident_start_exec(c: char) -> (r: bool)
    ensures
        r == is_ident_start(c),
{
    ('a' <= c && c <= 'z') || ('A' <= c && c <= 'Z') || c == '_'
}

fn digit_exec(c: char) -> (r: bool)
    ensures
        r == is_digit(c),
{
    '0' <= c && c <= '9'
}

pub fn ident_at_exec(src: &Source, pos: usize) -> (r: Option<(String, usize)>)
    requires
        src.wf(),
        pos <= src@.chars.len(),
    ensures
        parsed(r, ident_at(src@, pos as int), pos, src@),
{
    let p = skip_blank_exec(src, pos);
    if p < src.chars.len() && ident_start_exec(src.chars[p]) {
        let mut e: usize = p + 1;
        while e < src.chars.len() && (ident_start_exec(src.chars[e]) || digit_exec(src.chars[e]))
            invariant
                src.wf(),
                p < e <= src.chars.len(),
                ident_end(src@.chars, p + 1) == ident_end(src@.chars, e as int),
            decreases src.chars.len() - e,
        {
            e = e + 1;
        }
        Some((src.slice(p, e), e))
    } else {
        None
    }
}

/// That an executable reading `r` found what the grammar says, and that what
/// it found lies inside the text, behind `pos`.
pub open spec fn parsed<T: View>(
    r: Option<(T, usize)>,
    m: Option<(T::V, int)>,
    pos: usize,
    src: SourceView,
) -> bool {
    match r {
        Some((x, p)) => m == Some((x@, p as int)) && pos < p <= src.chars.len(),
        None => m is None,
    }
}

/// The same for a reading of several values.
pub open spec fn parsed_list<T: View>(
    r: Option<(Vec<T>, usize)>,
    m: Option<(Seq<T::V>, int)>,
    pos: usize,
    src: SourceView,
) -> bool {
    match r {
        Some((xs, p)) => m == Some((views(xs@), p as int)) && pos < p <= src.chars.len(),
        None => m is None,
    }
}

/// The same for a reading whose value needs no view.
pub open spec fn parsed_plain<T>(
    r: Option<(T, usize)>,
    m: Option<(T, int)>,
    pos: usize,
    src: SourceView,
) -> bool {
    match r {
        Some((x, p)) => m == Some((x, p as int)) && pos < p <= src.chars.len(),
        None => m is None,
    }
}

/// Where the run of digits from `pos` on ends.
pub open spec fn digits_end(s: Seq<char>, pos: int) -> int
    decreases s.len() - pos,
{
    if 0 <= pos < s.len() && is_digit(s[pos]) {
        digits_end(s, pos + 1)
    } else {
        pos
    }
}

pub open spec fn digit_value(c: char) -> int {
    c as u32 - '0' as u32
}

/// The number that a sequence of digits writes in base ten.
pub open spec fn decimal(digits: Seq<char>) -> int
    decreases digits.len(),
{
    if digits.len() == 0 {
        0
    } else {
        decimal(digits.drop_last()) * 10 + digit_value(digits.last())
    }
}

/// A digit run: `Some` of the position behind it, where there is at least one
/// digit at `pos`.
pub open spec fn digits_at(s: Seq<char>, pos: int) -> Option<int> {
    if digits_end(s, pos) > pos {
        Some(digits_end(s, pos))
    } else {
        None
    }
}

pub fn digits_at_exec(src: &Source, pos: usize) -> (r: Option<usize>)
    requires
        src.wf(),
        pos <= src@.chars.len(),
    ensures
        match r {
            Some(p) => digits_at(src@.chars, pos as int) == Some(p as int) && pos < p
                <= src@.chars.len(),
            None => digits_at(src@.chars, pos as int) is None,
        },
        r matches Some(p) ==> forall|k: int| pos <= k < p ==> is_digit(#[trigger] src@.chars[k]),
{
    let mut e: usize = pos;
    while e < src.chars.len() && digit_exec(src.chars[e])
        invariant
            src.wf(),
            pos <= e <= src.chars.len(),
            digits_end(src@.chars, pos as int) == digits_end(src@.chars, e as int),
            forall|k: int| pos <= k < e ==> is_digit(#[trigger] src@.chars[k]),
        decreases src.chars.len() - e,
    {
        e = e + 1;
    }
    if e > pos {
        Some(e)
    } else {
        None
    }
}

pub proof fn lemma_decimal_monotone(digits: Seq<char>, n: int)
    requires
        0 <= n <= digits.len(),
        forall|k: int| 0 <= k < digits.len() ==> is_digit(#[trigger] digits[k]),
    ensures
        0 <= decimal(digits.take(n)) <= decimal(digits),
    decreases digits.len() - n,
{
    if n == digits.len() {
        assert(digits.take(n) =~= digits);
        lemma_decimal_nonnegative(digits);
    } else {
        lemma_decimal_monotone(digits, n + 1);
        assert(digits.take(n + 1).drop_last() =~= digits.take(n));
        lemma_decimal_nonnegative(digits.take(n));
    }
}

pub proof fn lemma_decimal_nonnegative(digits: Seq<char>)
    requires
        forall|k: int| 0 <= k < digits.len() ==> is_digit(#[trigger] digits[k]),
    ensures
        0 <= decimal(digits),
    decreases digits.len(),
{
    if digits.len() > 0 {
        lemma_decimal_nonnegative(digits.drop_last());
    }
}

/// The number written between two positions, where it is at most `max`.
pub fn decimal_exec(src: &Source, from: usize, to: usize, max: u64) -> (r: Option<u64>)
    requires
        src.wf(),
        from <= to <= src@.chars.len(),
        forall|k: int| from <= k < to ==> is_digit(#[trigger] src@.chars[k]),
    ensures
        match r {
            Some(n) => n == decimal(src@.chars.subrange(from as int, to as int)) && n <= max,
            None => decimal(src@.chars.subrange(from as int, to as int)) > max,
        },
{
    let ghost digits = src@.chars.subrange(from as int, to as int);
    let mut i: usize = from;
    let mut n: u64 = 0;
    assert(digits.take(0) =~= Seq::<char>::empty());
    while i < to
        invariant
            src.wf(),
            from <= i <= to <= src@.chars.len(),
            digits == src@.chars.subrange(from as int, to as int),
            forall|k: int| 0 <= k < digits.len() ==> is_digit(#[trigger] digits[k]),
            n == decimal(digits.take(i - from)),
            n <= max,
        decreases to - i,
    {
        let c: char = src.chars[i];
        assert(c == digits[i - from]);
        let d: u64 = (c as u32 - '0' as u32) as u64;
        proof {
            lemma_decimal_monotone(digits, i + 1 - from);
            assert(digits.take(i + 1 - from).drop_last() =~= digits.take(i - from));
        }
        if n > (u64::MAX - d) / 10 || n * 10 + d > max {
            return None;
        }
        n = n * 10 + d;
        i = i + 1;
    }
    assert(digits.take(to - from) =~= digits);
    Some(n)
}

/// A number after blank space that is at most `max`, and the position behind
/// it.
pub open spec fn number_at(src: SourceView, pos: int, max: int) -> Option<(int, int)> {
    let p = skip_blank(src, pos);
    match digits_at(src.chars, p) {
        Some(e) => {
            let n = decimal(src.chars.subrange(p, e));
            if n <= max {
                Some((n, e))
            } else {
                None
            }
        },
        None => None,
    }
}

pub fn number_at_exec(src: &Source, pos: usize, max: u64) -> (r: Option<(u64, usize)>)
    requires
        src.wf(),
        pos <= src@.chars.len(),
    ensures
        match r {
            Some((n, p)) => number_at(src@, pos as int, max as int) == Some((n as int, p as int))
                && n <= max && pos < p <= src@.chars.len(),
            None => number_at(src@, pos as int, max as int) is None,
        },
{
    let p = skip_blank_exec(src, pos);
    match digits_at_exec(src, p) {
        Some(e) => match decimal_exec(src, p, e, max) {
            Some(n) => Some((n, e)),
            None => None,
        },
        None => None,
    }
}

/// The position of the next quotation mark.
pub open spec fn quote_from(s: Seq<char>, pos: int) -> Option<int>
    decreases s.len() - pos,
{
    if 0 <= pos < s.len() {
        if s[pos] == '"' {
            Some(pos)
        } else {
            quote_from(s, pos + 1)
        }
    } else {
        None
    }
}

/// A quoted string after blank space: the text between the quotation marks,
/// which knows no escapes, and the position behind the closing one.
pub open spec fn quoted_at(src: SourceView, pos: int) -> Option<(Seq<char>, int)> {
    let p = skip_blank(src, pos);
    if 0 <= p < src.chars.len() && src.chars[p] == '"' {
        match quote_from(src.chars, p + 1) {
            Some(q) => Some((src.chars.subrange(p + 1, q), q + 1)),
            None => None,
        }
    } else {
        None
    }
}

pub fn quoted_at_exec(src: &Source, pos: usize) -> (r: Option<(String, usize)>)
    requires
        src.wf(),
        pos <= src@.chars.len(),
    ensures
        parsed(r, quoted_at(src@, pos as int), pos, src@),
{
    let p = skip_blank_exec(src, pos);
    if p < src.chars.len() && src.chars[p] == '"' {
        let mut q: usize = p + 1;
        while q < src.chars.len() && src.chars[q] != '"'
            invariant
                src.wf(),
                p < q <= src.chars.len(),
                quote_from(src@.chars, p + 1) == quote_from(src@.chars, q as int),
            decreases src.chars.len() - q,
        {
            q = q + 1;
        }
        if q < src.chars.len() {
            Some((src.slice(p + 1, q), q + 1))
        } else {
            None
        }
    } else {
        None
    }
}

pub open spec fn digit_char(d: int) -> char {
    (d + '0' as u32) as char
}

/// The digits that write a number in base ten.
pub open spec fn decimal_text(n: int) -> Seq<char>
    decreases n,
{
    if n < 10 {
        seq![digit_char(n)]
    } else {
        decimal_text(n / 10).push(digit_char(n % 10))
    }
}

/// What `decimal_text` writes reads back as the number.
pub proof fn law_decimal_text_reads_back(n: int)
    requires
        0 <= n,
    ensures
        decimal(decimal_text(n)) == n,
    decreases n,
{
    if n < 10 {
        assert(seq![digit_char(n)].drop_last() =~= Seq::<char>::empty());
        reveal_with_fuel(decimal, 2);
    } else {
        law_decimal_text_reads_back(n / 10);
        assert(decimal_text(n).drop_last() =~= decimal_text(n / 10));
    }
}

fn digit_str(d: u64) -> (r: &'static str)
    requires
        d < 10,
    ensures
        r@ == seq![digit_char(d as int)],
{
    proof {
        reveal_strlit("0");
        reveal_strlit("1");
        reveal_strlit("2");
        reveal_strlit("3");
        reveal_strlit("4");
        reveal_strlit("5");
        reveal_strlit("6");
        reveal_strlit("7");
        reveal_strlit("8");
        reveal_strlit("9");
    }
    let r = match d {
        0 => "0",
        1 => "1",
        2 => "2",
        3 => "3",
        4 => "4",
        5 => "5",
        6 => "6",
        7 => "7",
        8 => "8",
        _ => "9",
    };
    assert(r@ =~= seq![digit_char(d as int)]);
    r
}

/// A number in base ten.
pub fn decimal_string(n: u64) -> (r: String)
    ensures
        r@ == decimal_text(n as int),
    decreases n,
{
    if n < 10 {
        digit_str(n).to_owned()
    } else {
        let mut r = decimal_string(n / 10);
        r.append(digit_str(n % 10));
        assert(r@ =~= decimal_text(n as int));
        r
    }
}

/// One text comes before another one exactly where, behind what they have in
/// common at their beginning, it ends first or goes on with the smaller
/// character.
pub proof fn law_texts_are_ordered_by_where_they_part(a: Seq<char>, b: Seq<char>)
    ensures
        lex_lt(a, b) <==> exists|k: int|
            0 <= k <= a.len() && k < b.len() && #[trigger] a.take(k) == b.take(k) && (k == a.len()
                || (a[k] as int) < (b[k] as int)),
    decreases a.len(),
{
    if lex_lt(a, b) {
        let k = lemma_where_they_part(a, b);
        assert(a.take(k) == b.take(k));
    }
    if exists|k: int|
        0 <= k <= a.len() && k < b.len() && #[trigger] a.take(k) == b.take(k) && (k == a.len() || (
        a[k] as int) < (b[k] as int)) {
        let k = choose|k: int|
            0 <= k <= a.len() && k < b.len() && #[trigger] a.take(k) == b.take(k) && (k == a.len()
                || (a[k] as int) < (b[k] as int));
        if k > 0 {
            assert(a.take(k)[0] == a[0]);
            assert(b.take(k)[0] == b[0]);
            let (x, y) = (a.drop_first(), b.drop_first());
            assert(x.take(k - 1) =~= a.take(k).drop_first());
            assert(y.take(k - 1) =~= b.take(k).drop_first());
            law_texts_are_ordered_by_where_they_part(x, y);
            assert(x.take(k - 1) == y.take(k - 1));
        }
    }
}

proof fn lemma_where_they_part(a: Seq<char>, b: Seq<char>) -> (k: int)
    requires
        lex_lt(a, b),
    ensures
        0 <= k <= a.len(),
        k < b.len(),
        a.take(k) == b.take(k),
        k == a.len() || (a[k] as int) < (b[k] as int),
    decreases a.len(),
{
    if a.len() == 0 || a[0] != b[0] {
        assert(a.take(0) =~= b.take(0));
        0
    } else {
        let k = lemma_where_they_part(a.drop_first(), b.drop_first());
        assert(a.take(k + 1) =~= seq![a[0]] + a.drop_first().take(k));
        assert(b.take(k + 1) =~= seq![b[0]] + b.drop_first().take(k));
        k + 1
    }
}

} // verus!
