//! The percent-directive format compiler and the diagnostic parser.
//!
//! A format string such as `"^%f:%l:%c: %m$"` is translated into a regular
//! expression with named capture groups (`to_re`); a set of compiled formats
//! is then run over a tool's raw output and the matches are deduplicated by
//! span and sorted (`Parser::parse`).

use vstd::prelude::*;
use vstd::string::StrSliceExecFns;
use crate::strutil::push_char;

verus! {

/// The regular-expression fragment a directive character expands to, or
/// `None` for an unrecognized directive (which is dropped).
pub open spec fn directive_expansion(c: char) -> Option<Seq<char>> {
    if c == '%' {
        Some(seq!['%'])
    } else if c == 'p' {
        Some("(?P<p>[^:[[:cntrl:]]]+)"@)
    } else if c == 'f' {
        Some("(?P<f>[^:[[:cntrl:]]]+)"@)
    } else if c == 'l' {
        Some("(?P<l>\\d+)"@)
    } else if c == 'c' {
        Some("(?P<c>\\d+)"@)
    } else if c == 'm' {
        Some("(?P<m>.*)"@)
    } else {
        None
    }
}

/// The translation of a whole format string: literal characters are copied,
/// `%` followed by a directive character expands per `directive_expansion`,
/// an unrecognized directive and a trailing lone `%` produce nothing.
pub open spec fn to_re_spec(fmt: Seq<char>) -> Seq<char>
    decreases fmt.len(),
{
    if fmt.len() == 0 {
        Seq::empty()
    } else if fmt[0] == '%' {
        if fmt.len() == 1 {
            Seq::empty()
        } else {
            (match directive_expansion(fmt[1]) {
                Some(e) => e,
                None => Seq::empty(),
            }) + to_re_spec(fmt.skip(2))
        }
    } else {
        seq![fmt[0]] + to_re_spec(fmt.skip(1))
    }
}

/// Compile a percent-directive format string to a regular-expression string.
pub fn to_re(format: &str) -> (r: String)
    ensures
        r@ == to_re_spec(format@),
{
    let n = format.unicode_len();
    let mut r = String::new();
    let mut i: usize = 0;
    proof {
        assert(format@.skip(0) == format@);
        assert(r@ + to_re_spec(format@) =~= to_re_spec(format@));
    }
    while i < n
        invariant
            n == format@.len(),
            i <= n,
            to_re_spec(format@) == r@ + to_re_spec(format@.skip(i as int)),
        decreases n - i,
    {
        let c = format.get_char(i);
        if c == '%' {
            if i + 1 < n {
                let d = format.get_char(i + 1);
                if d == '%' {
                    push_char(&mut r, '%');
                } else if d == 'p' {
                    r.append("(?P<p>[^:[[:cntrl:]]]+)");
                } else if d == 'f' {
                    r.append("(?P<f>[^:[[:cntrl:]]]+)");
                } else if d == 'l' {
                    r.append("(?P<l>\\d+)");
                } else if d == 'c' {
                    r.append("(?P<c>\\d+)");
                } else if d == 'm' {
                    r.append("(?P<m>.*)");
                }
                proof {
                    let s = format@.skip(i as int);
                    assert(s[0] == '%' && s.len() >= 2);
                    assert(s[1] == format@[i + 1]);
                    assert(s.skip(2) == format@.skip(i + 2));
                    assert(r@ + to_re_spec(format@.skip(i + 2)) =~= to_re_spec(format@));
                }
                i = i + 2;
            } else {
                proof {
                    let s = format@.skip(i as int);
                    assert(s.len() == 1 && s[0] == '%');
                    assert(format@.skip(i + 1) =~= Seq::<char>::empty());
                    assert(r@ + to_re_spec(format@.skip(i + 1)) =~= to_re_spec(format@));
                }
                i = i + 1;
            }
        } else {
            push_char(&mut r, c);
            proof {
                let s = format@.skip(i as int);
                assert(s[0] == c);
                assert(s.skip(1) == format@.skip(i + 1));
                assert(r@ + to_re_spec(format@.skip(i + 1)) =~= to_re_spec(format@));
            }
            i = i + 1;
        }
    }
    proof {
        assert(format@.skip(n as int) =~= Seq::<char>::empty());
    }
    r
}

/// Law: an unrecognized directive is dropped, wherever it stands. The
/// translation consumes a format from the front, so every directive is
/// reached as the head of some suffix; at any such point, `%` followed by an
/// unrecognized character contributes no characters and no capture group,
/// and the translation of the rest proceeds unchanged — never an error.
pub proof fn lemma_unknown_directive_dropped(c: char, rest: Seq<char>)
    requires
        directive_expansion(c) is None,
    ensures
        to_re_spec(seq!['%', c] + rest) == to_re_spec(rest),
{
    let s = seq!['%', c] + rest;
    assert(s.len() >= 2 && s[0] == '%' && s[1] == c);
    assert(s.skip(2) =~= rest);
    assert(to_re_spec(s) =~= to_re_spec(rest));
}

/// A decimal digit, by code point.
pub open spec fn is_digit(c: char) -> bool {
    48 <= c as int <= 57
}

pub open spec fn digit_val(c: char) -> int {
    c as int - 48
}

pub open spec fn all_digits(s: Seq<char>) -> bool {
    forall|i: int| 0 <= i < s.len() ==> is_digit(#[trigger] s[i])
}

/// The value of a digit string read in base ten.
pub open spec fn digits_val(s: Seq<char>) -> int
    decreases s.len(),
{
    if s.len() == 0 {
        0
    } else {
        digits_val(s.drop_last()) * 10 + digit_val(s.last())
    }
}

proof fn lemma_digits_val_nonneg(s: Seq<char>)
    requires
        all_digits(s),
    ensures
        digits_val(s) >= 0,
    decreases s.len(),
{
    if s.len() > 0 {
        assert(all_digits(s.drop_last())) by {
            assert(forall|i: int| 0 <= i < s.len() - 1 ==> s.drop_last()[i] == s[i]);
        }
        lemma_digits_val_nonneg(s.drop_last());
        assert(digits_val(s.drop_last()) * 10 >= 0) by (nonlinear_arith)
            requires digits_val(s.drop_last()) >= 0;
    }
}

/// Extending a digit string never shrinks its value: the value of a prefix is
/// a lower bound for the value of the whole string.
proof fn lemma_digits_val_prefix_le(s: Seq<char>, j: int)
    requires
        all_digits(s),
        0 <= j <= s.len(),
    ensures
        digits_val(s.take(j)) <= digits_val(s),
    decreases s.len() - j,
{
    if j < s.len() {
        let t = s.take(j + 1);
        assert(t.drop_last() == s.take(j));
        assert(all_digits(s.take(j))) by {
            assert(forall|i: int| 0 <= i < j ==> s.take(j)[i] == s[i]);
        }
        lemma_digits_val_nonneg(s.take(j));
        let v = digits_val(s.take(j));
        assert(digits_val(t) == v * 10 + digit_val(t.last()));
        assert(v * 10 >= v) by (nonlinear_arith)
            requires v >= 0;
        assert(is_digit(s[j]));
        assert(digits_val(t) >= v);
        lemma_digits_val_prefix_le(s, j + 1);
    } else {
        assert(s.take(j) == s);
    }
}

/// Parse a string of decimal digits as a `u32`; anything else, and any value
/// beyond `u32::MAX`, yields `None`.
pub fn parse_u32(s: &str) -> (r: Option<u32>)
    ensures
        match r {
            Some(v) => s@.len() > 0 && all_digits(s@) && digits_val(s@) == v as int,
            None => s@.len() == 0 || !all_digits(s@) || digits_val(s@) > u32::MAX,
        },
{
    let n = s.unicode_len();
    if n == 0 {
        return None;
    }
    let mut acc: u64 = 0;
    let mut i: usize = 0;
    while i < n
        invariant
            n == s@.len(),
            0 < n,
            i <= n,
            all_digits(s@.take(i as int)),
            acc == digits_val(s@.take(i as int)),
            acc <= u32::MAX,
        decreases n - i,
    {
        let c = s.get_char(i);
        let cv = c as u32;
        if cv < 48 || cv > 57 {
            assert(!is_digit(s@[i as int]));
            return None;
        }
        let d: u64 = (cv - 48) as u64;
        proof {
            let t = s@.take(i + 1);
            assert(t.drop_last() == s@.take(i as int));
            assert(t.last() == s@[i as int]);
            assert(forall|k: int| 0 <= k < i + 1 ==> t[k] == s@[k]);
        }
        acc = acc * 10 + d;
        i = i + 1;
        if acc > 0xFFFF_FFFF {
            proof {
                if all_digits(s@) {
                    lemma_digits_val_prefix_le(s@, i as int);
                }
            }
            return None;
        }
    }
    proof {
        assert(s@.take(n as int) == s@);
    }
    Some(acc as u32)
}

/// One match of a compiled format against a text: the byte span of the whole
/// match, and the text of each named group that participated.
pub struct Capture {
    pub start: usize,
    pub end: usize,
    pub program: Option<String>,
    pub file: Option<String>,
    pub line: Option<String>,
    pub column: Option<String>,
    pub message: Option<String>,
}

#[verifier::external_type_specification]
#[verifier::external_body]
pub struct ExRegex(regex::Regex);

/// Whether a pattern is accepted by the regular-expression compiler
/// (in multi-line mode, as every pattern of this crate is built).
pub uninterp spec fn regex_ok(pattern: Seq<char>) -> bool;

/// The pattern a compiled regular expression was built from.
pub uninterp spec fn regex_src(re: regex::Regex) -> Seq<char>;

/// All matches of a pattern against a text, in match order, with the named
/// groups `p`, `f`, `l`, `c`, `m`; a function of the pattern and the text.
pub uninterp spec fn captures_of(pattern: Seq<char>, text: Seq<char>) -> Seq<Capture>;

/// Relies on `regex::RegexBuilder`: `build` in multi-line mode succeeds
/// exactly on valid patterns and compiles the given pattern itself.
#[verifier::external_body]
fn build_regex_multiline(pattern: &str) -> (r: Option<regex::Regex>)
    ensures
        r is Some <==> regex_ok(pattern@),
        r is Some ==> regex_src(r.unwrap()) == pattern@,
{
    regex::RegexBuilder::new(pattern).multi_line(true).build().ok()
}

/// Relies on `regex::Regex::captures_iter`: successive non-overlapping
/// matches of the compiled pattern, determined by the pattern and the text.
#[verifier::external_body]
fn find_captures(re: &regex::Regex, text: &str) -> (r: Vec<Capture>)
    ensures
        r@ == captures_of(regex_src(*re), text@),
{
    let mut out = Vec::new();
    for cap in re.captures_iter(text) {
        let m = cap.get(0).unwrap();
        out.push(Capture {
            start: m.start(),
            end: m.end(),
            program: cap.name("p").map(|g| g.as_str().to_string()),
            file: cap.name("f").map(|g| g.as_str().to_string()),
            line: cap.name("l").map(|g| g.as_str().to_string()),
            column: cap.name("c").map(|g| g.as_str().to_string()),
            message: cap.name("m").map(|g| g.as_str().to_string()),
        });
    }
    out
}

/// Strict lexicographic order on match spans.
pub open spec fn span_lt(a: Capture, b: Capture) -> bool {
    a.start < b.start || (a.start == b.start && a.end < b.end)
}

pub open spec fn span_sorted(cs: Seq<Capture>) -> bool {
    forall|i: int, j: int| 0 <= i < j < cs.len() ==> span_lt(#[trigger] cs[i], #[trigger] cs[j])
}

/// Whether some capture in the sequence has the given span.
pub open spec fn span_in(cs: Seq<Capture>, start: usize, end: usize) -> bool {
    exists|i: int| 0 <= i < cs.len() && (#[trigger] cs[i]).start == start && cs[i].end == end
}

/// The first capture in the sequence with the given span.
pub open spec fn first_at(cs: Seq<Capture>, start: usize, end: usize) -> Capture
    decreases cs.len(),
{
    if cs.len() == 0 {
        arbitrary()
    } else if cs[0].start == start && cs[0].end == end {
        cs[0]
    } else {
        first_at(cs.drop_first(), start, end)
    }
}

/// Insert a capture into a span-sorted sequence, unless its span is already
/// present (the earlier capture wins).
pub open spec fn insert_capture(acc: Seq<Capture>, c: Capture) -> Seq<Capture>
    decreases acc.len(),
{
    if acc.len() == 0 {
        seq![c]
    } else if acc[0].start == c.start && acc[0].end == c.end {
        acc
    } else if span_lt(c, acc[0]) {
        seq![c] + acc
    } else {
        seq![acc[0]] + insert_capture(acc.drop_first(), c)
    }
}

/// Deduplicate a capture sequence by span, keeping the earliest capture for
/// each span, and order the result by span.
pub open spec fn dedup_sorted(all: Seq<Capture>) -> Seq<Capture>
    decreases all.len(),
{
    if all.len() == 0 {
        Seq::empty()
    } else {
        insert_capture(dedup_sorted(all.drop_last()), all.last())
    }
}

/// The captures of every pattern in order, concatenated.
pub open spec fn all_captures(patterns: Seq<Seq<char>>, text: Seq<char>) -> Seq<Capture>
    decreases patterns.len(),
{
    if patterns.len() == 0 {
        Seq::empty()
    } else {
        captures_of(patterns.first(), text) + all_captures(patterns.drop_first(), text)
    }
}

proof fn lemma_all_captures_snoc(patterns: Seq<Seq<char>>, text: Seq<char>)
    requires
        patterns.len() > 0,
    ensures
        all_captures(patterns, text) == all_captures(patterns.drop_last(), text) + captures_of(
            patterns.last(),
            text,
        ),
    decreases patterns.len(),
{
    if patterns.len() == 1 {
        assert(patterns.drop_first() =~= Seq::<Seq<char>>::empty());
        assert(patterns.drop_last() =~= Seq::<Seq<char>>::empty());
        assert(patterns.first() == patterns.last());
        assert(all_captures(patterns, text) =~= all_captures(patterns.drop_last(), text)
            + captures_of(patterns.last(), text));
    } else {
        let tail = patterns.drop_first();
        lemma_all_captures_snoc(tail, text);
        assert(tail.drop_last() =~= patterns.drop_last().drop_first());
        assert(tail.last() == patterns.last());
        assert(patterns.drop_last().first() == patterns.first());
        assert(all_captures(patterns, text) =~= all_captures(patterns.drop_last(), text)
            + captures_of(patterns.last(), text));
    }
}

proof fn lemma_insert_elems(acc: Seq<Capture>, c: Capture)
    ensures
        forall|k: int|
            0 <= k < insert_capture(acc, c).len() ==> (#[trigger] insert_capture(acc, c)[k] == c
                || acc.contains(insert_capture(acc, c)[k])),
    decreases acc.len(),
{
    if acc.len() == 0 {
    } else if acc[0].start == c.start && acc[0].end == c.end {
        assert(forall|k: int| 0 <= k < acc.len() ==> acc.contains(#[trigger] acc[k]));
    } else if span_lt(c, acc[0]) {
        let r = seq![c] + acc;
        assert(forall|k: int| 1 <= k < r.len() ==> r[k] == acc[k - 1] && acc.contains(acc[k - 1]));
    } else {
        lemma_insert_elems(acc.drop_first(), c);
        let r = seq![acc[0]] + insert_capture(acc.drop_first(), c);
        assert(acc.contains(acc[0]));
        assert forall|k: int| 1 <= k < r.len() implies (r[k] == c || acc.contains(r[k])) by {
            assert(r[k] == insert_capture(acc.drop_first(), c)[k - 1]);
            if r[k] != c {
                let j = choose|j: int|
                    0 <= j < acc.drop_first().len() && acc.drop_first()[j] == r[k];
                assert(acc[j + 1] == r[k]);
            }
        }
    }
}

proof fn lemma_insert_spans(acc: Seq<Capture>, c: Capture, st: usize, en: usize)
    ensures
        span_in(insert_capture(acc, c), st, en) <==> (span_in(acc, st, en) || (st == c.start && en
            == c.end)),
    decreases acc.len(),
{
    if acc.len() == 0 {
        assert(insert_capture(acc, c) == seq![c]);
        assert(insert_capture(acc, c)[0] == c);
        if span_in(acc, st, en) {
            let i = choose|i: int|
                0 <= i < acc.len() && (#[trigger] acc[i]).start == st && acc[i].end == en;
        }
    } else if acc[0].start == c.start && acc[0].end == c.end {
        if st == c.start && en == c.end {
            assert(acc[0].start == st && acc[0].end == en);
        }
    } else if span_lt(c, acc[0]) {
        let r = seq![c] + acc;
        if span_in(acc, st, en) {
            let i = choose|i: int|
                0 <= i < acc.len() && (#[trigger] acc[i]).start == st && acc[i].end == en;
            assert(r[i + 1] == acc[i]);
        }
        if st == c.start && en == c.end {
            assert(r[0] == c);
        }
        if span_in(r, st, en) {
            let i = choose|i: int|
                0 <= i < r.len() && (#[trigger] r[i]).start == st && r[i].end == en;
            if i > 0 {
                assert(acc[i - 1] == r[i]);
            }
        }
    } else {
        let tail = acc.drop_first();
        lemma_insert_spans(tail, c, st, en);
        let r = seq![acc[0]] + insert_capture(tail, c);
        if span_in(acc, st, en) {
            let i = choose|i: int|
                0 <= i < acc.len() && (#[trigger] acc[i]).start == st && acc[i].end == en;
            if i == 0 {
                assert(r[0] == acc[0]);
            } else {
                assert(tail[i - 1] == acc[i]);
            }
        }
        if span_in(tail, st, en) {
            let i = choose|i: int|
                0 <= i < tail.len() && (#[trigger] tail[i]).start == st && tail[i].end == en;
            let ins = insert_capture(tail, c);
            assert(span_in(ins, st, en));
            let j = choose|j: int|
                0 <= j < ins.len() && (#[trigger] ins[j]).start == st && ins[j].end == en;
            assert(r[j + 1] == ins[j]);
        }
        if span_in(r, st, en) {
            let i = choose|i: int|
                0 <= i < r.len() && (#[trigger] r[i]).start == st && r[i].end == en;
            if i == 0 {
                assert(acc[0] == r[0]);
            } else {
                let ins = insert_capture(tail, c);
                assert(ins[i - 1] == r[i]);
                assert(span_in(ins, st, en));
                if !(st == c.start && en == c.end) {
                    assert(span_in(tail, st, en));
                    let j = choose|j: int|
                        0 <= j < tail.len() && (#[trigger] tail[j]).start == st && tail[j].end
                            == en;
                    assert(acc[j + 1] == tail[j]);
                }
            }
        }
        if st == c.start && en == c.end {
            let ins = insert_capture(tail, c);
            assert(span_in(ins, st, en));
            let j = choose|j: int|
                0 <= j < ins.len() && (#[trigger] ins[j]).start == st && ins[j].end == en;
            assert(r[j + 1] == ins[j]);
        }
    }
}

proof fn lemma_insert_sorted(acc: Seq<Capture>, c: Capture)
    requires
        span_sorted(acc),
    ensures
        span_sorted(insert_capture(acc, c)),
    decreases acc.len(),
{
    if acc.len() == 0 {
    } else if acc[0].start == c.start && acc[0].end == c.end {
    } else if span_lt(c, acc[0]) {
        let r = seq![c] + acc;
        assert forall|i: int, j: int| 0 <= i < j < r.len() implies span_lt(r[i], r[j]) by {
            if i > 0 {
                assert(r[i] == acc[i - 1] && r[j] == acc[j - 1]);
            } else {
                assert(r[j] == acc[j - 1]);
                if j > 1 {
                    assert(span_lt(acc[0], acc[j - 1]));
                }
            }
        }
    } else {
        let tail = acc.drop_first();
        assert(span_sorted(tail)) by {
            assert(forall|i: int, j: int|
                0 <= i < j < tail.len() ==> tail[i] == acc[i + 1] && tail[j] == acc[j + 1]);
        }
        lemma_insert_sorted(tail, c);
        lemma_insert_elems(tail, c);
        let ins = insert_capture(tail, c);
        let r = seq![acc[0]] + ins;
        assert(span_lt(acc[0], c));
        assert forall|i: int, j: int| 0 <= i < j < r.len() implies span_lt(r[i], r[j]) by {
            if i > 0 {
                assert(r[i] == ins[i - 1] && r[j] == ins[j - 1]);
            } else {
                assert(r[j] == ins[j - 1]);
                if ins[j - 1] == c {
                } else {
                    let k = choose|k: int| 0 <= k < tail.len() && tail[k] == ins[j - 1];
                    assert(acc[k + 1] == tail[k]);
                    assert(span_lt(acc[0], acc[k + 1]));
                }
            }
        }
    }
}

proof fn lemma_insert_present(acc: Seq<Capture>, c: Capture)
    requires
        span_sorted(acc),
        span_in(acc, c.start, c.end),
    ensures
        insert_capture(acc, c) == acc,
    decreases acc.len(),
{
    let i = choose|i: int|
        0 <= i < acc.len() && (#[trigger] acc[i]).start == c.start && acc[i].end == c.end;
    if acc[0].start == c.start && acc[0].end == c.end {
    } else {
        assert(i > 0);
        if span_lt(c, acc[0]) {
            assert(span_lt(acc[0], acc[i]));
            assert(false);
        }
        let tail = acc.drop_first();
        assert(span_sorted(tail)) by {
            assert(forall|k: int, j: int|
                0 <= k < j < tail.len() ==> tail[k] == acc[k + 1] && tail[j] == acc[j + 1]);
        }
        assert(tail[i - 1] == acc[i]);
        lemma_insert_present(tail, c);
        assert(seq![acc[0]] + tail =~= acc);
    }
}

proof fn lemma_insert_at(acc: Seq<Capture>, c: Capture, pos: int)
    requires
        span_sorted(acc),
        0 <= pos <= acc.len(),
        forall|i: int| 0 <= i < pos ==> span_lt(#[trigger] acc[i], c),
        forall|i: int| pos <= i < acc.len() ==> span_lt(c, #[trigger] acc[i]),
    ensures
        insert_capture(acc, c) == acc.take(pos) + seq![c] + acc.skip(pos),
    decreases acc.len(),
{
    if acc.len() == 0 {
        assert(insert_capture(acc, c) =~= acc.take(pos) + seq![c] + acc.skip(pos));
    } else if pos == 0 {
        assert(span_lt(c, acc[0]));
        assert(seq![c] + acc =~= acc.take(0) + seq![c] + acc.skip(0));
    } else {
        assert(span_lt(acc[0], c));
        let tail = acc.drop_first();
        assert(span_sorted(tail)) by {
            assert(forall|k: int, j: int|
                0 <= k < j < tail.len() ==> tail[k] == acc[k + 1] && tail[j] == acc[j + 1]);
        }
        assert(forall|i: int| 0 <= i < pos - 1 ==> #[trigger] tail[i] == acc[i + 1]);
        assert(forall|i: int| pos - 1 <= i < tail.len() ==> #[trigger] tail[i] == acc[i + 1]);
        lemma_insert_at(tail, c, pos - 1);
        assert(seq![acc[0]] + (tail.take(pos - 1) + seq![c] + tail.skip(pos - 1)) =~= acc.take(pos)
            + seq![c] + acc.skip(pos));
    }
}

/// Law: deduplication by span keeps the span set intact, and its result is
/// strictly ordered by span, so each span appears exactly once.
pub proof fn lemma_dedup_spans(all: Seq<Capture>)
    ensures
        span_sorted(dedup_sorted(all)),
        forall|st: usize, en: usize|
            #[trigger] span_in(dedup_sorted(all), st, en) <==> span_in(all, st, en),
    decreases all.len(),
{
    if all.len() > 0 {
        let prefix = all.drop_last();
        let c = all.last();
        lemma_dedup_spans(prefix);
        lemma_insert_sorted(dedup_sorted(prefix), c);
        assert forall|st: usize, en: usize| #[trigger]
            span_in(dedup_sorted(all), st, en) <==> span_in(all, st, en) by {
            lemma_insert_spans(dedup_sorted(prefix), c, st, en);
            if span_in(prefix, st, en) {
                let i = choose|i: int|
                    0 <= i < prefix.len() && (#[trigger] prefix[i]).start == st && prefix[i].end
                        == en;
                assert(all[i] == prefix[i]);
            }
            if st == c.start && en == c.end {
                assert(all[all.len() - 1] == c);
            }
            if span_in(all, st, en) {
                let i = choose|i: int|
                    0 <= i < all.len() && (#[trigger] all[i]).start == st && all[i].end == en;
                if i < all.len() - 1 {
                    assert(prefix[i] == all[i]);
                }
            }
        }
    }
}

proof fn lemma_first_at_push(prefix: Seq<Capture>, c: Capture, st: usize, en: usize)
    requires
        span_in(prefix, st, en),
    ensures
        first_at(prefix.push(c), st, en) == first_at(prefix, st, en),
    decreases prefix.len(),
{
    let p = prefix.push(c);
    assert(p[0] == prefix[0]);
    if prefix[0].start == st && prefix[0].end == en {
    } else {
        let i = choose|i: int|
            0 <= i < prefix.len() && (#[trigger] prefix[i]).start == st && prefix[i].end == en;
        assert(i > 0);
        assert(prefix.drop_first()[i - 1] == prefix[i]);
        lemma_first_at_push(prefix.drop_first(), c, st, en);
        assert(p.drop_first() =~= prefix.drop_first().push(c));
    }
}

proof fn lemma_first_at_push_new(prefix: Seq<Capture>, c: Capture)
    requires
        !span_in(prefix, c.start, c.end),
    ensures
        first_at(prefix.push(c), c.start, c.end) == c,
    decreases prefix.len(),
{
    let p = prefix.push(c);
    if prefix.len() == 0 {
        assert(p[0] == c);
    } else {
        assert(p[0] == prefix[0]);
        assert(!(prefix[0].start == c.start && prefix[0].end == c.end));
        assert(!span_in(prefix.drop_first(), c.start, c.end)) by {
            if span_in(prefix.drop_first(), c.start, c.end) {
                let i = choose|i: int|
                    0 <= i < prefix.drop_first().len() && (#[trigger] prefix.drop_first()[i]).start
                        == c.start && prefix.drop_first()[i].end == c.end;
                assert(prefix[i + 1] == prefix.drop_first()[i]);
            }
        }
        lemma_first_at_push_new(prefix.drop_first(), c);
        assert(p.drop_first() =~= prefix.drop_first().push(c));
    }
}

/// Law: when several formats match the identical span, deduplication keeps
/// the capture of the earliest match in the combined, format-ordered capture
/// sequence; every record of the result is that first capture for its span.
pub proof fn lemma_dedup_first_wins(all: Seq<Capture>)
    ensures
        forall|k: int|
            0 <= k < dedup_sorted(all).len() ==> #[trigger] dedup_sorted(all)[k] == first_at(
                all,
                dedup_sorted(all)[k].start,
                dedup_sorted(all)[k].end,
            ),
    decreases all.len(),
{
    if all.len() > 0 {
        let prefix = all.drop_last();
        let c = all.last();
        let ded = dedup_sorted(prefix);
        lemma_dedup_first_wins(prefix);
        lemma_dedup_spans(prefix);
        assert(all =~= prefix.push(c));
        if span_in(ded, c.start, c.end) {
            lemma_insert_present(ded, c);
            assert forall|k: int| 0 <= k < dedup_sorted(all).len() implies #[trigger] dedup_sorted(
                all,
            )[k] == first_at(all, dedup_sorted(all)[k].start, dedup_sorted(all)[k].end) by {
                let x = ded[k];
                assert(span_in(ded, x.start, x.end));
                lemma_first_at_push(prefix, c, x.start, x.end);
            }
        } else {
            lemma_insert_elems(ded, c);
            assert forall|k: int| 0 <= k < dedup_sorted(all).len() implies #[trigger] dedup_sorted(
                all,
            )[k] == first_at(all, dedup_sorted(all)[k].start, dedup_sorted(all)[k].end) by {
                let x = dedup_sorted(all)[k];
                if x == c {
                    lemma_first_at_push_new(prefix, c);
                } else {
                    assert(ded.contains(x));
                    let j = choose|j: int| 0 <= j < ded.len() && ded[j] == x;
                    assert(span_in(ded, x.start, x.end));
                    lemma_first_at_push(prefix, c, x.start, x.end);
                }
            }
        }
    }
}

/// A structured diagnostic record extracted from one match.
#[derive(Debug, PartialEq, Eq, Default)]
pub struct Parsed {
    pub program: Option<String>,
    pub file: Option<String>,
    pub line: Option<u32>,
    pub column: Option<u32>,
    pub message: Option<String>,
}

/// The number a captured group stands for: the value of its digit string, or
/// nothing when the group is absent or its value does not fit in a `u32`.
pub open spec fn spec_group_num(o: Option<String>) -> Option<u32> {
    match o {
        Option::Some(s) => if s@.len() > 0 && all_digits(s@) && digits_val(s@) <= u32::MAX {
            Option::Some(digits_val(s@) as u32)
        } else {
            Option::None
        },
        Option::None => Option::None,
    }
}

/// The diagnostic record a capture turns into.
pub open spec fn capture_to_parsed(c: Capture, p: Parsed) -> bool {
    &&& p.program == c.program
    &&& p.file == c.file
    &&& p.line == spec_group_num(c.line)
    &&& p.column == spec_group_num(c.column)
    &&& p.message == c.message
}

fn clone_group(o: &Option<String>) -> (r: Option<String>)
    ensures
        r == *o,
{
    match o {
        Option::Some(s) => Option::Some(s.clone()),
        Option::None => Option::None,
    }
}

fn group_num(o: &Option<String>) -> (r: Option<u32>)
    ensures
        r == spec_group_num(*o),
{
    match o {
        Option::Some(s) => parse_u32(s.as_str()),
        Option::None => Option::None,
    }
}

/// An unusable percent-directive format: its compiled pattern is not a valid
/// regular expression.
#[derive(Debug)]
pub struct FormatError {
    pub format: String,
}

/// A set of compiled percent-directive formats.
#[derive(Debug)]
pub struct Parser {
    regexes: Vec<regex::Regex>,
}

impl Parser {
    /// The compiled patterns, in the order the formats were given.
    pub closed spec fn patterns(&self) -> Seq<Seq<char>> {
        self.regexes@.map_values(|re: regex::Regex| regex_src(re))
    }

    /// Compile each format; fail on the first whose translated pattern the
    /// regular-expression compiler rejects.
    pub fn new(formats: &Vec<String>) -> (r: Result<Parser, FormatError>)
        ensures
            match r {
                Ok(p) => {
                    &&& p.patterns() == formats@.map_values(|f: String| to_re_spec(f@))
                    &&& forall|i: int|
                        0 <= i < formats@.len() ==> regex_ok(to_re_spec(#[trigger] formats@[i]@))
                },
                Err(e) => exists|i: int|
                    {
                        &&& 0 <= i < formats@.len()
                        &&& !regex_ok(to_re_spec(#[trigger] formats@[i]@))
                        &&& e.format@ == formats@[i]@
                        &&& forall|k: int| 0 <= k < i ==> regex_ok(to_re_spec(#[trigger] formats@[k]@))
                    },
            },
    {
        let mut regexes: Vec<regex::Regex> = Vec::new();
        let mut j: usize = 0;
        while j < formats.len()
            invariant
                j <= formats@.len(),
                regexes@.map_values(|re: regex::Regex| regex_src(re)) == formats@.take(
                    j as int,
                ).map_values(|f: String| to_re_spec(f@)),
                forall|k: int| 0 <= k < j ==> regex_ok(to_re_spec(#[trigger] formats@[k]@)),
            decreases formats@.len() - j,
        {
            let pat = to_re(formats[j].as_str());
            match build_regex_multiline(pat.as_str()) {
                Option::Some(re) => {
                    let ghost prev = regexes@;
                    regexes.push(re);
                    proof {
                        let g = |re: regex::Regex| regex_src(re);
                        let f = |f: String| to_re_spec(f@);
                        assert(regex_src(re) == to_re_spec(formats@[j as int]@));
                        assert(regexes@ =~= prev.push(re));
                        assert(regexes@.map_values(g) =~= prev.map_values(g).push(regex_src(re)));
                        assert(formats@.take(j + 1).map_values(f) =~= formats@.take(
                            j as int,
                        ).map_values(f).push(to_re_spec(formats@[j as int]@)));
                        assert(regexes@.map_values(g) =~= formats@.take(j + 1).map_values(f));
                    }
                },
                Option::None => {
                    let f = formats[j].clone();
                    return Err(FormatError { format: f });
                },
            }
            j = j + 1;
        }
        proof {
            assert(formats@.take(formats@.len() as int) == formats@);
        }
        Ok(Parser { regexes })
    }

    /// Run every compiled format over the text; collect one record per
    /// distinct match span (the earliest format's capture wins), ordered by
    /// span start, then span end.
    pub fn parse(&self, text: &str) -> (r: Vec<Parsed>)
        ensures
            ({
                let ded = dedup_sorted(all_captures(self.patterns(), text@));
                &&& r@.len() == ded.len()
                &&& forall|i: int|
                    0 <= i < ded.len() ==> capture_to_parsed(ded[i], #[trigger] r@[i])
            }),
    {
        let ghost pats = self.patterns();
        let mut acc: Vec<Capture> = Vec::new();
        let ghost mut done: Seq<Capture> = Seq::empty();
        let mut j: usize = 0;
        proof {
            assert(pats.take(0) =~= Seq::<Seq<char>>::empty());
        }
        while j < self.regexes.len()
            invariant
                j <= self.regexes@.len(),
                pats == self.patterns(),
                done == all_captures(pats.take(j as int), text@),
                acc@ == dedup_sorted(done),
                span_sorted(acc@),
            decreases self.regexes@.len() - j,
        {
            let caps = find_captures(&self.regexes[j], text);
            proof {
                assert(pats[j as int] == regex_src(self.regexes@[j as int]));
            }
            let mut m: usize = 0;
            while m < caps.len()
                invariant
                    m <= caps@.len(),
                    caps@ == captures_of(pats[j as int], text@),
                    0 <= j < pats.len(),
                    done == all_captures(pats.take(j as int), text@) + caps@.take(m as int),
                    acc@ == dedup_sorted(done),
                    span_sorted(acc@),
                decreases caps@.len() - m,
            {
                let c = take_capture(&caps, m);
                let ghost done0 = done;
                proof {
                    assert(done0.push(caps@[m as int]) =~= all_captures(pats.take(j as int), text@)
                        + caps@.take(m + 1));
                    assert(done0.push(caps@[m as int]).drop_last() == done0);
                    assert(done0.push(caps@[m as int]).last() == caps@[m as int]);
                    done = done0.push(caps@[m as int]);
                }
                insert_sorted(&mut acc, c);
                m = m + 1;
            }
            proof {
                lemma_all_captures_snoc(pats.take(j + 1), text@);
                assert(pats.take(j + 1).drop_last() =~= pats.take(j as int));
                assert(pats.take(j + 1).last() == pats[j as int]);
                assert(caps@.take(caps@.len() as int) == caps@);
            }
            j = j + 1;
        }
        proof {
            assert(pats.take(pats.len() as int) == pats);
        }
        let mut r: Vec<Parsed> = Vec::new();
        let mut i: usize = 0;
        while i < acc.len()
            invariant
                i <= acc@.len(),
                r@.len() == i,
                forall|k: int| 0 <= k < i ==> capture_to_parsed(acc@[k], #[trigger] r@[k]),
            decreases acc@.len() - i,
        {
            let cap = &acc[i];
            r.push(Parsed {
                program: clone_group(&cap.program),
                file: clone_group(&cap.file),
                line: group_num(&cap.line),
                column: group_num(&cap.column),
                message: clone_group(&cap.message),
            });
            i = i + 1;
        }
        r
    }
}

/// Copy the capture at an index out of a vector.
fn take_capture(caps: &Vec<Capture>, m: usize) -> (r: Capture)
    requires
        m < caps@.len(),
    ensures
        r == caps@[m as int],
{
    let c = &caps[m];
    Capture {
        start: c.start,
        end: c.end,
        program: clone_group(&c.program),
        file: clone_group(&c.file),
        line: clone_group(&c.line),
        column: clone_group(&c.column),
        message: clone_group(&c.message),
    }
}

/// Insert a capture into a span-sorted vector unless its span is present,
/// mirroring `insert_capture`.
fn insert_sorted(acc: &mut Vec<Capture>, c: Capture)
    requires
        span_sorted(old(acc)@),
    ensures
        final(acc)@ == insert_capture(old(acc)@, c),
        span_sorted(final(acc)@),
{
    proof {
        lemma_insert_sorted(old(acc)@, c);
    }
    let mut pos: usize = 0;
    while pos < acc.len() && span_lt_exec(&acc[pos], &c)
        invariant
            pos <= acc@.len(),
            acc@ == old(acc)@,
            forall|i: int| 0 <= i < pos ==> span_lt(#[trigger] acc@[i], c),
        decreases acc@.len() - pos,
    {
        pos = pos + 1;
    }
    if pos < acc.len() && acc[pos].start == c.start && acc[pos].end == c.end {
        proof {
            assert(span_in(acc@, c.start, c.end));
            lemma_insert_present(acc@, c);
        }
    } else {
        proof {
            assert forall|i: int| pos <= i < acc@.len() implies span_lt(c, #[trigger] acc@[i]) by {
                if i == pos {
                    assert(!span_lt(acc@[pos as int], c));
                } else {
                    assert(!span_lt(acc@[pos as int], c));
                    assert(span_lt(acc@[pos as int], acc@[i]));
                }
            }
            lemma_insert_at(acc@, c, pos as int);
        }
        acc.insert(pos, c);
        proof {
            assert(old(acc)@.take(pos as int) + seq![c] + old(acc)@.skip(pos as int) =~= acc@);
            lemma_insert_sorted(old(acc)@, c);
        }
    }
}

/// Strict lexicographic span comparison.
fn span_lt_exec(a: &Capture, b: &Capture) -> (r: bool)
    ensures
        r == span_lt(*a, *b),
{
    a.start < b.start || (a.start == b.start && a.end < b.end)
}

} // verus!
