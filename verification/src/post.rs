//! Post parsing: frontmatter splitting, dates, excerpt splitting, permalink computation.
//!
//! The YAML inside the frontmatter is read into `Frontmatter` by the caller;
//! this module finds it in the file, and does everything after that.

use vstd::prelude::*;
use chrono::{Datelike, Timelike};
use std::fmt::Write;
use crate::text::{
    chars_of, decimal, first_occurrence, first_occurrence_exec, has_at, lemma_first_occurrence,
    lemma_first_occurrence_shift, occurs_at, push_char, push_decimal, push_str, skip_ws, skip_ws_exec,
    lemma_skip_ws, string_of_range,
};
use crate::render::rewrite::{replace_spec, replace_str};

verus! {

/// A calendar date and time of day (what the frontmatter's `date` holds).
#[derive(Clone, Copy, PartialEq, Eq, Debug)]
pub struct DateTime {
    pub year: i32,
    pub month: u32,
    pub day: u32,
    pub hour: u32,
    pub minute: u32,
    pub second: u32,
}

impl DateTime {
    /// The ranges chrono's date and time accessors return.
    pub open spec fn wf(self) -> bool {
        1 <= self.month <= 12 && 1 <= self.day <= 31 && self.hour <= 23 && self.minute <= 59 && self.second <= 59
    }
}

/// What chrono's `NaiveDateTime::parse_from_str(s, fmt)` gives, as date and time fields.
pub uninterp spec fn chrono_datetime(s: Seq<char>, fmt: Seq<char>) -> Option<DateTime>;

/// What chrono's `NaiveDate::parse_from_str(s, fmt)` gives, as `(year, month, day)`.
pub uninterp spec fn chrono_date(s: Seq<char>, fmt: Seq<char>) -> Option<(i32, u32, u32)>;

/// Calls `chrono::NaiveDateTime::parse_from_str`. Only the name of the result
/// is stated, and that the fields lie in the ranges chrono's `month`, `day`,
/// `hour`, `minute` and `second` accessors document.
#[verifier::external_body]
fn parse_naive_datetime(s: &str, fmt: &str) -> (r: Option<DateTime>)
    ensures
        r == chrono_datetime(s@, fmt@),
        r matches Some(d) ==> d.wf(),
{
    chrono::NaiveDateTime::parse_from_str(s, fmt).ok().map(|d| DateTime {
        year: d.year(),
        month: d.month(),
        day: d.day(),
        hour: d.hour(),
        minute: d.minute(),
        second: d.second(),
    })
}

/// Calls `chrono::NaiveDate::parse_from_str`; the name of the result is
/// stated, with the documented ranges of month and day.
#[verifier::external_body]
fn parse_naive_date(s: &str, fmt: &str) -> (r: Option<(i32, u32, u32)>)
    ensures
        r == chrono_date(s@, fmt@),
        r matches Some((y, m, d)) ==> 1 <= m <= 12 && 1 <= d <= 31,
{
    chrono::NaiveDate::parse_from_str(s, fmt).ok().map(|d| (d.year(), d.month(), d.day()))
}

/// A frontmatter date: `YYYY-MM-DD HH:MM:SS`, else `YYYY-MM-DD` at midnight.
pub open spec fn parse_date_spec(s: Seq<char>) -> Option<DateTime> {
    match chrono_datetime(s, "%Y-%m-%d %H:%M:%S"@) {
        Some(d) => Some(d),
        None => match chrono_date(s, "%Y-%m-%d"@) {
            Some((y, m, d)) => Some(DateTime { year: y, month: m, day: d, hour: 0, minute: 0, second: 0 }),
            None => None,
        },
    }
}

/// Parses a frontmatter date (`2025-12-21 23:29:01` or `2025-12-21`).
pub fn parse_date(s: &str) -> (r: Option<DateTime>)
    ensures
        r == parse_date_spec(s@),
        r matches Some(d) ==> d.wf(),
{
    match parse_naive_datetime(s, "%Y-%m-%d %H:%M:%S") {
        Some(d) => Some(d),
        None => match parse_naive_date(s, "%Y-%m-%d") {
            Some((y, m, d)) => Some(DateTime { year: y, month: m, day: d, hour: 0, minute: 0, second: 0 }),
            None => None,
        },
    }
}

/// YAML frontmatter fields.
pub struct Frontmatter {
    pub title: String,
    pub date: DateTime,
    pub tags: Vec<String>,
    pub categories: Vec<String>,
    pub mathjax: bool,
    /// Whether the post has a table of contents; `None` where the
    /// frontmatter does not say, and the site's default applies.
    pub toc: Option<bool>,
    pub id: String,
    pub password: Option<String>,
}

/// A post read from its markdown file.
pub struct Post {
    pub frontmatter: Frontmatter,
    pub body: String,
    pub excerpt: String,
    pub has_more: bool,
    pub permalink: String,
    pub source_path: String,
}

// ---------------------------------------------------------------- frontmatter

/// Why a file has no frontmatter block.
#[derive(PartialEq, Eq, Debug)]
pub enum FrontmatterError {
    /// The text (after leading whitespace) does not start with `---`.
    MissingDelimiter,
    /// No line starts with `---` after the opening one.
    Unclosed,
}

/// `(yaml, body)`: after leading whitespace the text must start with `---`;
/// the YAML runs up to the next `\n---`, the body starts after it.
pub open spec fn split_frontmatter_spec(content: Seq<char>) -> Result<(Seq<char>, Seq<char>), FrontmatterError> {
    let t = content.subrange(skip_ws(content, 0), content.len() as int);
    if !(t.len() >= 3 && t.subrange(0, 3) == "---"@) {
        Err(FrontmatterError::MissingDelimiter)
    } else {
        let rest = t.subrange(3, t.len() as int);
        match first_occurrence(rest, "\n---"@, 0) {
            None => Err(FrontmatterError::Unclosed),
            Some(e) => Ok((rest.subrange(0, e), rest.subrange(e + 4, rest.len() as int))),
        }
    }
}

/// Split raw file content into its YAML frontmatter and the body after the closing `---`.
pub fn split_frontmatter_raw(content: &str) -> (r: Result<(String, String), FrontmatterError>)
    ensures
        match r {
            Ok((yaml, body)) => split_frontmatter_spec(content@) == Ok::<(Seq<char>, Seq<char>), FrontmatterError>((yaml@, body@)),
            Err(e) => split_frontmatter_spec(content@) == Err::<(Seq<char>, Seq<char>), FrontmatterError>(e),
        },
{
    let cs = chars_of(content);
    let n = cs.len();
    let a = skip_ws_exec(&cs, 0);
    proof {
        lemma_skip_ws(cs@, 0);
        reveal_strlit("---");
        reveal_strlit("\n---");
    }
    let ghost t = cs@.subrange(a as int, n as int);
    if !(n - a >= 3 && has_at(&cs, a, "---")) {
        assert(n - a >= 3 ==> t.subrange(0, 3) =~= cs@.subrange(a as int, a + 3));
        return Err(FrontmatterError::MissingDelimiter);
    }
    assert(t.subrange(0, 3) =~= cs@.subrange(a as int, a + 3));
    let start = a + 3;
    let ghost rest = t.subrange(3, t.len() as int);
    assert(rest =~= cs@.subrange(start as int, n as int));
    match first_occurrence_exec(&cs, "\n---", start) {
        None => {
            proof { lemma_first_occurrence_shift(cs@, "\n---"@, start as int, start as int); }
            Err(FrontmatterError::Unclosed)
        },
        Some(e) => {
            proof {
                lemma_first_occurrence_shift(cs@, "\n---"@, start as int, start as int);
                lemma_first_occurrence(cs@, "\n---"@, start as int);
            }
            let yaml = string_of_range(&cs, start, e);
            let body = string_of_range(&cs, e + 4, n);
            assert(rest.subrange(0, e - start) =~= cs@.subrange(start as int, e as int));
            assert(rest.subrange(e - start + 4, rest.len() as int) =~= cs@.subrange(e + 4, n as int));
            Ok((yaml, body))
        },
    }
}

proof fn lemma_no_occurrence(s: Seq<char>, pat: Seq<char>, i: int)
    requires
        0 <= i,
        first_occurrence(s, pat, i) is None,
    ensures
        forall|j: int| i <= j < s.len() ==> !occurs_at(s, j, pat),
    decreases s.len() - i,
{
    if i < s.len() {
        lemma_no_occurrence(s, pat, i + 1);
    }
}

/// A file has frontmatter exactly when, after leading whitespace, it opens
/// with `---` and a later line opens with `---`: it is refused as missing the
/// delimiter when it does not open with `---`, as unclosed when no `\n---`
/// follows, and otherwise the text is `---`, the YAML, `\n---` and the body,
/// split at the first `\n---`.
pub proof fn lemma_frontmatter_cases(content: Seq<char>)
    ensures
        ({
            let t = content.subrange(skip_ws(content, 0), content.len() as int);
            let opens = t.len() >= 3 && t.subrange(0, 3) == "---"@;
            &&& (split_frontmatter_spec(content) == Err::<(Seq<char>, Seq<char>), FrontmatterError>(FrontmatterError::MissingDelimiter)) <==> !opens
            &&& (split_frontmatter_spec(content) == Err::<(Seq<char>, Seq<char>), FrontmatterError>(FrontmatterError::Unclosed))
                <==> (opens && forall|i: int| 3 <= i < t.len() ==> !occurs_at(t, i, "\n---"@))
            &&& split_frontmatter_spec(content) matches Ok((yaml, body)) ==> ({
                &&& t == "---"@ + yaml + "\n---"@ + body
                &&& forall|i: int| 0 <= i < yaml.len() ==> !occurs_at(yaml + "\n---"@ + body, i, "\n---"@)
            })
        }),
{
    lemma_skip_ws(content, 0);
    reveal_strlit("---");
    reveal_strlit("\n---");
    let t = content.subrange(skip_ws(content, 0), content.len() as int);
    if t.len() >= 3 && t.subrange(0, 3) == "---"@ {
        let rest = t.subrange(3, t.len() as int);
        match first_occurrence(rest, "\n---"@, 0) {
            None => {
                lemma_no_occurrence(rest, "\n---"@, 0);
                assert forall|i: int| 3 <= i < t.len() implies !occurs_at(t, i, "\n---"@) by {
                    assert(!occurs_at(rest, i - 3, "\n---"@));
                    if i + 4 <= t.len() {
                        assert(t.subrange(i, i + 4) =~= rest.subrange(i - 3, i - 3 + 4));
                    }
                }
            },
            Some(e) => {
                lemma_first_occurrence(rest, "\n---"@, 0);
                let yaml = rest.subrange(0, e);
                let body = rest.subrange(e + 4, rest.len() as int);
                assert(rest.subrange(e, e + 4) == "\n---"@);
                assert(rest =~= yaml + "\n---"@ + body);
                assert(t =~= "---"@ + yaml + "\n---"@ + body);
                assert(occurs_at(t, e + 3, "\n---"@)) by {
                    assert(t.subrange(e + 3, e + 7) =~= rest.subrange(e, e + 4));
                }
            },
        }
    }
}

// ---------------------------------------------------------------- excerpt

/// Case-insensitive match of a lower-case ASCII letter.
pub open spec fn ci_eq(c: char, lower: char) -> bool {
    c == lower || (c as u32) + 32 == lower as u32
}

/// `(?i)<!-- ?more ?-->` at `p`: the end of the match.
pub open spec fn more_at(s: Seq<char>, p: int) -> Option<int> {
    if occurs_at(s, p, "<!--"@) {
        let q = if p + 4 < s.len() && s[p + 4] == ' ' { p + 5 } else { p + 4 };
        if q + 4 <= s.len() && ci_eq(s[q], 'm') && ci_eq(s[q + 1], 'o') && ci_eq(s[q + 2], 'r') && ci_eq(s[q + 3], 'e') {
            let r = if q + 4 < s.len() && s[q + 4] == ' ' { q + 5 } else { q + 4 };
            if occurs_at(s, r, "-->"@) {
                Some(r + 3)
            } else {
                None
            }
        } else {
            None
        }
    } else {
        None
    }
}

/// The leftmost `<!--more-->` marker at or after `p`: `(start, end)`.
pub open spec fn first_more(s: Seq<char>, p: int) -> Option<(int, int)>
    decreases s.len() - p,
{
    if p < 0 || p >= s.len() {
        None
    } else {
        match more_at(s, p) {
            Some(e) => Some((p, e)),
            None => first_more(s, p + 1),
        }
    }
}

/// `(excerpt, full body, has_more)`: with a marker, the excerpt is the text
/// before it and the body loses the marker; without one, the excerpt is the
/// first 300 characters.
pub open spec fn split_excerpt_spec(body: Seq<char>) -> (Seq<char>, Seq<char>, bool) {
    match first_more(body, 0) {
        Some((st, en)) => (body.subrange(0, st), body.subrange(0, st) + body.subrange(en, body.len() as int), true),
        None => (body.take(if body.len() < 300 { body.len() as int } else { 300 }), body, false),
    }
}

proof fn lemma_first_more_leftmost(s: Seq<char>, p: int)
    requires
        0 <= p,
    ensures
        match first_more(s, p) {
            Some((st, en)) => p <= st < s.len() && more_at(s, st) == Some(en)
                && forall|q: int| p <= q < st ==> more_at(s, q) is None,
            None => forall|q: int| p <= q < s.len() ==> more_at(s, q) is None,
        },
    decreases s.len() - p,
{
    if p < s.len() && more_at(s, p) is None {
        lemma_first_more_leftmost(s, p + 1);
    }
}

/// `split_excerpt` splits at the leftmost `<!-- ?more ?-->` marker (any case
/// of `more`): the excerpt is all that comes before it, and the body is the
/// text without it. Where the text holds no marker, the body is the whole
/// text and the excerpt its first 300 characters.
pub proof fn lemma_split_excerpt_at_first_marker(body: Seq<char>)
    ensures
        ({
            let (excerpt, full, has_more) = split_excerpt_spec(body);
            &&& has_more <==> exists|p: int| 0 <= p < body.len() && (#[trigger] more_at(body, p)) is Some
            &&& has_more ==> ({
                let st = excerpt.len() as int;
                &&& st < body.len()
                &&& excerpt == body.subrange(0, st)
                &&& forall|q: int| 0 <= q < st ==> (#[trigger] more_at(body, q)) is None
                &&& more_at(body, st) matches Some(en) && full == excerpt + body.subrange(en, body.len() as int)
            })
            &&& !has_more ==> full == body && excerpt == body.take(if body.len() < 300 { body.len() as int } else { 300 })
        }),
{
    lemma_first_more_leftmost(body, 0);
    match first_more(body, 0) {
        Some((st, en)) => {
            assert(more_at(body, st) is Some);
        },
        None => {},
    }
}

fn ci_eq_exec(c: char, lower: char) -> (b: bool)
    requires
        'a' <= lower <= 'z',
    ensures
        b == ci_eq(c, lower),
{
    c == lower || (c as u32) + 32 == lower as u32
}

fn more_at_exec(cs: &Vec<char>, p: usize) -> (r: Option<usize>)
    requires
        p < cs@.len(),
    ensures
        r matches Some(e) ==> more_at(cs@, p as int) == Some(e as int) && p < e <= cs@.len(),
        r is None ==> more_at(cs@, p as int) is None,
{
    let n = cs.len();
    proof {
        reveal_strlit("<!--");
        reveal_strlit("-->");
    }
    if !has_at(cs, p, "<!--") {
        return None;
    }
    let q = if p + 4 < n && cs[p + 4] == ' ' { p + 5 } else { p + 4 };
    if !(q <= n && n - q >= 4 && ci_eq_exec(cs[q], 'm') && ci_eq_exec(cs[q + 1], 'o') && ci_eq_exec(cs[q + 2], 'r')
        && ci_eq_exec(cs[q + 3], 'e')) {
        return None;
    }
    let r = if q + 4 < n && cs[q + 4] == ' ' { q + 5 } else { q + 4 };
    if has_at(cs, r, "-->") {
        Some(r + 3)
    } else {
        None
    }
}

/// Split body into `(excerpt, full_body, has_more)` at the `<!--more-->` tag.
///
/// Uses the same pattern as Hexo (`/<!-- ?more ?-->/i`), matching at most one
/// optional space before and after "more".
pub fn split_excerpt(body: &str) -> (r: (String, String, bool))
    ensures
        (r.0@, r.1@, r.2) == split_excerpt_spec(body@),
{
    let cs = chars_of(body);
    let n = cs.len();
    let mut p: usize = 0;
    while p < n
        invariant
            n == cs@.len(),
            cs@ == body@,
            p <= n,
            first_more(cs@, 0) == first_more(cs@, p as int),
        decreases n - p,
    {
        match more_at_exec(&cs, p) {
            Some(e) => {
                let excerpt = string_of_range(&cs, 0, p);
                let mut full = string_of_range(&cs, 0, p);
                let tail = string_of_range(&cs, e, n);
                push_str(&mut full, tail.as_str());
                return (excerpt, full, true);
            },
            None => {},
        }
        p = p + 1;
    }
    let k = if n < 300 { n } else { 300 };
    let excerpt = string_of_range(&cs, 0, k);
    let full = string_of_range(&cs, 0, n);
    assert(cs@.subrange(0, n as int) =~= cs@);
    (excerpt, full, false)
}

// ---------------------------------------------------------------- permalink

/// `n` in decimal, zero-padded to at least four digits.
pub open spec fn pad4(n: nat) -> Seq<char> {
    let d = decimal(n);
    if d.len() >= 4 {
        d
    } else {
        Seq::new((4 - d.len()) as nat, |i: int| '0') + d
    }
}

/// chrono's `%Y`: four digits for years 0..=9999, else a sign and at least four digits.
pub open spec fn year_text(y: int) -> Seq<char> {
    if 0 <= y <= 9999 {
        pad4(y as nat)
    } else if y < 0 {
        seq!['-'] + pad4((-y) as nat)
    } else {
        seq!['+'] + pad4(y as nat)
    }
}

/// chrono's `%m` / `%d` for values below 100: two digits.
pub open spec fn two_digits(v: nat) -> Seq<char> {
    seq![crate::text::digit_char(v / 10), crate::text::digit_char(v % 10)]
}

/// The number a decimal digit character stands for.
pub open spec fn digit_value(c: char) -> int {
    (c as int) - ('0' as int)
}

proof fn lemma_digit_char_value(d: nat)
    requires
        d < 10,
    ensures
        '0' <= crate::text::digit_char(d) <= '9',
        digit_value(crate::text::digit_char(d)) == d,
{
}

/// Two-digit fields (`%m`, `%d`) are the value zero-padded to width two: two
/// decimal digits that read back as the value, the value's own decimal
/// notation from 10 on, with one `0` before it below 10.
pub proof fn lemma_two_digits(v: nat)
    requires
        v < 100,
    ensures
        two_digits(v).len() == 2,
        '0' <= two_digits(v)[0] <= '9' && '0' <= two_digits(v)[1] <= '9',
        digit_value(two_digits(v)[0]) * 10 + digit_value(two_digits(v)[1]) == v,
        v >= 10 ==> two_digits(v) == decimal(v),
        v < 10 ==> two_digits(v) == seq!['0'] + decimal(v),
{
    lemma_digit_char_value(v / 10);
    lemma_digit_char_value(v % 10);
    if v >= 10 {
        assert(v / 10 < 10);
        assert(decimal(v / 10) == seq![crate::text::digit_char(v / 10)]);
        assert(decimal(v) =~= two_digits(v));
    } else {
        assert(v / 10 == 0 && v % 10 == v);
        assert(seq!['0'] + decimal(v) =~= two_digits(v));
    }
}

/// `%Y` of a year from 0 to 9999 is the year zero-padded to four digits:
/// four decimal digits that read back as the year.
pub proof fn lemma_year_four_digits(y: int)
    requires
        0 <= y <= 9999,
    ensures
        year_text(y).len() == 4,
        forall|q: int| 0 <= q < 4 ==> '0' <= #[trigger] year_text(y)[q] <= '9',
        digit_value(year_text(y)[0]) * 1000 + digit_value(year_text(y)[1]) * 100 + digit_value(year_text(y)[2]) * 10
            + digit_value(year_text(y)[3]) == y,
{
    let n = y as nat;
    let a = n / 1000;
    let b = (n / 100) % 10;
    let c = (n / 10) % 10;
    let d = n % 10;
    assert(n == a * 1000 + b * 100 + c * 10 + d) by (nonlinear_arith)
        requires
            a == n / 1000,
            b == (n / 100) % 10,
            c == (n / 10) % 10,
            d == n % 10,
    ;
    assert(a < 10);
    lemma_digit_char_value(a);
    lemma_digit_char_value(b);
    lemma_digit_char_value(c);
    lemma_digit_char_value(d);
    let da = crate::text::digit_char(a);
    let db = crate::text::digit_char(b);
    let dc = crate::text::digit_char(c);
    let dd = crate::text::digit_char(d);
    let want = seq![da, db, dc, dd];
    assert(decimal(n % 10) == seq![dd]);
    if n < 10 {
        assert(a == 0 && b == 0 && c == 0 && d == n);
        assert(decimal(n) == seq![dd]);
        assert(Seq::new(3, |i: int| '0') + decimal(n) =~= want);
    } else if n < 100 {
        assert(a == 0 && b == 0 && n / 10 == c);
        assert(decimal(n / 10) == seq![dc]);
        assert(decimal(n) =~= seq![dc, dd]);
        assert(Seq::new(2, |i: int| '0') + decimal(n) =~= want);
    } else if n < 1000 {
        assert(a == 0 && n / 100 == b && (n / 10) / 10 == b);
        assert(decimal(n / 100) == seq![db]);
        assert(decimal((n / 10) % 10) == seq![dc]);
        assert(decimal(n / 10) =~= seq![db, dc]);
        assert(decimal(n) =~= seq![db, dc, dd]);
        assert(Seq::new(1, |i: int| '0') + decimal(n) =~= want);
    } else {
        assert((n / 10) / 10 == n / 100 && (n / 100) / 10 == a);
        assert(decimal(a) == seq![da]);
        assert(decimal(n / 100) =~= seq![da, db]);
        assert(decimal(n / 10) =~= seq![da, db, dc]);
        assert(decimal(n) =~= want);
    }
    assert(year_text(y) =~= want);
}

fn push_pad4(out: &mut String, n: u64)
    ensures
        final(out)@ == old(out)@ + pad4(n as nat),
{
    let mut digits = String::new();
    push_decimal_u64(&mut digits, n);
    let len = chars_of(digits.as_str()).len();
    let ghost start = out@;
    if len < 4 {
        let mut k = len;
        while k < 4
            invariant
                len <= k <= 4,
                out@ == start + Seq::new((k - len) as nat, |i: int| '0'),
            decreases 4 - k,
        {
            push_char(out, '0');
            assert(Seq::new((k + 1 - len) as nat, |i: int| '0') =~= Seq::new((k - len) as nat, |i: int| '0').push('0'));
            k = k + 1;
        }
    }
    push_str(out, digits.as_str());
    assert(len >= 4 ==> out@ =~= start + decimal(n as nat));
}

fn push_decimal_u64(out: &mut String, n: u64)
    ensures
        final(out)@ == old(out)@ + decimal(n as nat),
    decreases n,
{
    if n >= 10 {
        push_decimal_u64(out, n / 10);
    }
    push_char(out, digit_char_u64(n % 10));
    assert(n < 10 ==> decimal(n as nat) =~= seq![crate::text::digit_char((n % 10) as nat)]);
}

fn digit_char_u64(d: u64) -> (c: char)
    requires
        d < 10,
    ensures
        c == crate::text::digit_char(d as nat),
{
    if d == 0 { '0' } else if d == 1 { '1' } else if d == 2 { '2' } else if d == 3 { '3' }
    else if d == 4 { '4' } else if d == 5 { '5' } else if d == 6 { '6' } else if d == 7 { '7' }
    else if d == 8 { '8' } else { '9' }
}

pub fn year_string(y: i32) -> (r: String)
    ensures
        r@ == year_text(y as int),
{
    let mut out = String::new();
    let v = y as i64;
    if 0 <= v && v <= 9999 {
        push_pad4(&mut out, v as u64);
    } else if v < 0 {
        push_char(&mut out, '-');
        push_pad4(&mut out, (-v) as u64);
    } else {
        push_char(&mut out, '+');
        push_pad4(&mut out, v as u64);
    }
    out
}

fn two_digit_string(v: u32) -> (r: String)
    requires
        v < 100,
    ensures
        r@ == two_digits(v as nat),
{
    let mut out = String::new();
    push_char(&mut out, digit_char_u64((v / 10) as u64));
    push_char(&mut out, digit_char_u64((v % 10) as u64));
    out
}

/// The permalink pattern with `:year`, `:month`, `:day` and `:id` filled in
/// (in that order), ending in `/`.
pub open spec fn permalink_spec(date: DateTime, id: Seq<char>, pattern: Seq<char>) -> Seq<char> {
    let r1 = replace_spec(pattern, ":year"@, year_text(date.year as int));
    let r2 = replace_spec(r1, ":month"@, two_digits(date.month as nat));
    let r3 = replace_spec(r2, ":day"@, two_digits(date.day as nat));
    let r4 = replace_spec(r3, ":id"@, id);
    if r4.len() > 0 && r4.last() == '/' {
        r4
    } else {
        r4 + seq!['/']
    }
}

/// Compute a post's permalink from the configured pattern.
pub fn compute_permalink(fm: &Frontmatter, pattern: &str) -> (r: String)
    requires
        fm.date.wf(),
    ensures
        r@ == permalink_spec(fm.date, fm.id@, pattern@),
{
    proof {
        reveal_strlit(":year");
        reveal_strlit(":month");
        reveal_strlit(":day");
        reveal_strlit(":id");
    }
    let y = year_string(fm.date.year);
    let m = two_digit_string(fm.date.month);
    let d = two_digit_string(fm.date.day);
    let r1 = replace_str(pattern, ":year", y.as_str());
    let r2 = replace_str(r1.as_str(), ":month", m.as_str());
    let r3 = replace_str(r2.as_str(), ":day", d.as_str());
    let mut r4 = replace_str(r3.as_str(), ":id", fm.id.as_str());
    let cs = chars_of(r4.as_str());
    if cs.len() > 0 && cs[cs.len() - 1] == '/' {
        r4
    } else {
        push_char(&mut r4, '/');
        r4
    }
}

/// chrono's `%Y-%m-%d` of a date.
pub open spec fn date_ymd_spec(date: DateTime) -> Seq<char> {
    year_text(date.year as int) + seq!['-'] + two_digits(date.month as nat) + seq!['-'] + two_digits(date.day as nat)
}

/// The date as `YYYY-MM-DD`.
pub fn format_date_ymd(date: &DateTime) -> (r: String)
    requires
        date.wf(),
    ensures
        r@ == date_ymd_spec(*date),
{
    let mut out = year_string(date.year);
    push_char(&mut out, '-');
    let m = two_digit_string(date.month);
    push_str(&mut out, m.as_str());
    push_char(&mut out, '-');
    let d = two_digit_string(date.day);
    push_str(&mut out, d.as_str());
    out
}

impl Post {
    /// Builds a post from its frontmatter and the body that followed it.
    pub fn parse(source_path: &str, frontmatter: Frontmatter, body: &str, permalink_pattern: &str) -> (r: Post)
        requires
            frontmatter.date.wf(),
        ensures
            (r.excerpt@, r.body@, r.has_more) == split_excerpt_spec(body@),
            r.permalink@ == permalink_spec(frontmatter.date, frontmatter.id@, permalink_pattern@),
            r.source_path@ == source_path@,
            r.frontmatter == frontmatter,
    {
        let (excerpt, full, has_more) = split_excerpt(body);
        let permalink = compute_permalink(&frontmatter, permalink_pattern);
        let sp = chars_of(source_path);
        let source = string_of_range(&sp, 0, sp.len());
        assert(sp@.subrange(0, sp@.len() as int) =~= sp@);
        Post { frontmatter, body: full, excerpt, has_more, permalink, source_path: source }
    }
}

proof fn lemma_more_at(s: Seq<char>, p: int)
    requires
        more_at(s, p) is Some,
    ensures
        0 <= p < more_at(s, p).unwrap() <= s.len(),
{
    reveal_strlit("<!--");
    reveal_strlit("-->");
}

proof fn lemma_first_more(s: Seq<char>, p: int)
    requires
        0 <= p,
        first_more(s, p) is Some,
    ensures
        p <= first_more(s, p).unwrap().0 < first_more(s, p).unwrap().1 <= s.len(),
    decreases s.len() - p,
{
    if more_at(s, p) is Some {
        lemma_more_at(s, p);
    } else {
        lemma_first_more(s, p + 1);
    }
}

/// The excerpt is the start of the body the post keeps: the text before the
/// `<!--more-->` marker, or the first characters where there is none.
pub proof fn lemma_excerpt_is_prefix(body: Seq<char>)
    ensures
        ({
            let (excerpt, full, has_more) = split_excerpt_spec(body);
            &&& excerpt.len() <= full.len()
            &&& full.subrange(0, excerpt.len() as int) == excerpt
            &&& !has_more ==> full == body
        }),
{
    match first_more(body, 0) {
        Some((st, en)) => {
            lemma_first_more(body, 0);
            let ex = body.subrange(0, st);
            let full = ex + body.subrange(en, body.len() as int);
            assert(full.subrange(0, ex.len() as int) =~= ex);
        },
        None => {
            let k: int = if body.len() < 300 { body.len() as int } else { 300 };
            assert(body.subrange(0, body.take(k).len() as int) =~= body.take(k));
        },
    }
}

/// A permalink always ends in `/`.
pub proof fn lemma_permalink_ends_with_slash(date: DateTime, id: Seq<char>, pattern: Seq<char>)
    ensures
        permalink_spec(date, id, pattern).len() > 0,
        permalink_spec(date, id, pattern).last() == '/',
{
}

/// What chrono's `format(fmt)` writes for a date and time, where the format
/// can be written (`None` where the format string is invalid for it).
pub uninterp spec fn chrono_format_datetime(d: DateTime, fmt: Seq<char>) -> Option<Seq<char>>;

/// What chrono's `format(fmt)` writes for a date alone.
pub uninterp spec fn chrono_format_date(year: i32, month: u32, day: u32, fmt: Seq<char>) -> Option<Seq<char>>;

/// Builds the `chrono::NaiveDateTime` of the fields and writes it with
/// `format(fmt)`. Claimed: the result is `chrono_format_datetime` of the
/// arguments; `None` stands for fields that are no valid date and time, or
/// a format chrono cannot write (where `to_string` would panic).
#[verifier::external_body]
fn format_naive_datetime(d: &DateTime, fmt: &str) -> (r: Option<String>)
    ensures
        opt_string_view(r) == chrono_format_datetime(*d, fmt@),
{
    let dt = chrono::NaiveDate::from_ymd_opt(d.year, d.month, d.day)?.and_hms_opt(d.hour, d.minute, d.second)?;
    let mut out = String::new();
    write!(out, "{}", dt.format(fmt)).ok().map(|_| out)
}

/// Builds the `chrono::NaiveDate` of the fields and writes it with
/// `format(fmt)`. Claimed: the result is `chrono_format_date` of the
/// arguments (`None` as for `format_naive_datetime`).
#[verifier::external_body]
fn format_naive_date(year: i32, month: u32, day: u32, fmt: &str) -> (r: Option<String>)
    ensures
        opt_string_view(r) == chrono_format_date(year, month, day, fmt@),
{
    let date = chrono::NaiveDate::from_ymd_opt(year, month, day)?;
    let mut out = String::new();
    write!(out, "{}", date.format(fmt)).ok().map(|_| out)
}

pub open spec fn opt_string_view(o: Option<String>) -> Option<Seq<char>> {
    match o {
        Some(s) => Some(s@),
        None => None,
    }
}

/// What the template filter `date_format` makes of a value.
pub enum DateFormatted {
    /// The value read as a date (and time), written with the format.
    Text(String),
    /// The value is no date: it is kept as it is.
    NotADate,
    /// The value is a date, but the format cannot be written for it (the
    /// filter fails).
    BadFormat,
}

pub open spec fn date_format_spec(value: Seq<char>, format: Seq<char>) -> Option<Option<Seq<char>>> {
    match chrono_datetime(value, "%Y-%m-%dT%H:%M:%S"@) {
        Some(d) => Some(chrono_format_datetime(d, format)),
        None => match chrono_date(value, "%Y-%m-%d"@) {
            Some((y, m, d)) => Some(chrono_format_date(y, m, d, format)),
            None => None,
        },
    }
}

/// The template filter `date_format`: a value that reads as
/// `YYYY-MM-DDTHH:MM:SS`, else as `YYYY-MM-DD`, is written with `format`.
pub fn date_format_value(value: &str, format: &str) -> (r: DateFormatted)
    ensures
        match r {
            DateFormatted::Text(t) => date_format_spec(value@, format@) == Some(Some(t@)),
            DateFormatted::NotADate => date_format_spec(value@, format@) is None,
            DateFormatted::BadFormat => date_format_spec(value@, format@) == Some(None::<Seq<char>>),
        },
{
    let written = match parse_naive_datetime(value, "%Y-%m-%dT%H:%M:%S") {
        Some(d) => format_naive_datetime(&d, format),
        None => match parse_naive_date(value, "%Y-%m-%d") {
            Some((y, m, d)) => format_naive_date(y, m, d, format),
            None => return DateFormatted::NotADate,
        },
    };
    match written {
        Some(t) => DateFormatted::Text(t),
        None => DateFormatted::BadFormat,
    }
}

/// The format the `date_format` filter uses when none is given.
pub fn default_date_format() -> (r: String)
    ensures
        r@ == "%Y-%m-%d"@,
{
    "%Y-%m-%d".to_string()
}

} // verus!
