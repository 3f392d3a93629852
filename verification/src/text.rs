//! Character-level helpers shared by the rest of the library.
//!
//! Text is read as a `Vec<char>` (its view is the string's `Seq<char>`) and
//! written into a `String` one character or one string slice at a time.

use vstd::prelude::*;

verus! {

/// Converts a string slice into the vector of its characters.
pub fn chars_of(s: &str) -> (v: Vec<char>)
    ensures
        v@ == s@,
{
    broadcast use vstd::string::group_string_axioms;
    let mut v: Vec<char> = Vec::new();
    for c in it: s.chars()
        invariant
            v@ == it.seq().take(it.index()),
            it.seq() == s@,
    {
        v.push(c);
    }
    v
}

/// Appends one character to a `String` (std's `String::push`).
#[verifier::external_body]
pub(crate) fn push_char(s: &mut String, c: char)
    ensures
        final(s)@ == old(s)@.push(c),
{
    s.push(c);
}

/// Collects characters into a new `String`.
pub fn string_from_chars(v: &[char]) -> (s: String)
    ensures
        s@ == v@,
{
    let mut s = String::new();
    let mut i: usize = 0;
    while i < v.len()
        invariant
            i <= v@.len(),
            s@ == v@.subrange(0, i as int),
        decreases v@.len() - i,
    {
        push_char(&mut s, v[i]);
        assert(v@.subrange(0, i + 1) =~= v@.subrange(0, i as int).push(v@[i as int]));
        i = i + 1;
    }
    assert(v@.subrange(0, v@.len() as int) =~= v@);
    s
}

} // verus!

verus! {

/// `p` occurs in `s` starting at index `i`.
pub open spec fn occurs_at(s: Seq<char>, i: int, p: Seq<char>) -> bool {
    0 <= i && i + p.len() <= s.len() && s.subrange(i, i + p.len()) == p
}

/// Index of the first `c` in `s` at or after `i`.
pub open spec fn find_char_from(s: Seq<char>, c: char, i: int) -> Option<int>
    decreases s.len() - i,
{
    if i < 0 || i >= s.len() {
        None
    } else if s[i] == c {
        Some(i)
    } else {
        find_char_from(s, c, i + 1)
    }
}

pub proof fn lemma_find_char_from(s: Seq<char>, c: char, i: int)
    requires
        0 <= i,
    ensures
        match find_char_from(s, c, i) {
            Some(k) => i <= k < s.len() && s[k] == c && forall|j: int| i <= j < k ==> s[j] != c,
            None => forall|j: int| i <= j < s.len() ==> s[j] != c,
        },
    decreases s.len() - i,
{
    if i < s.len() && s[i] != c {
        lemma_find_char_from(s, c, i + 1);
    }
}

/// Whether `p` occurs in `cs` at index `i`.
pub fn has_at(cs: &Vec<char>, i: usize, p: &str) -> (b: bool)
    ensures
        b == occurs_at(cs@, i as int, p@),
{
    let pc = chars_of(p);
    if i > cs.len() || pc.len() > cs.len() - i {
        return false;
    }
    let n = cs.len();
    let mut k: usize = 0;
    while k < pc.len()
        invariant
            pc@ == p@,
            n == cs@.len(),
            i <= cs@.len(),
            i + pc@.len() <= cs@.len(),
            k <= pc@.len(),
            forall|j: int| 0 <= j < k ==> cs@[i + j] == pc@[j],
        decreases pc@.len() - k,
    {
        if cs[i + k] != pc[k] {
            assert(cs@.subrange(i as int, i + pc@.len())[k as int] != pc@[k as int]);
            return false;
        }
        k = k + 1;
    }
    assert(cs@.subrange(i as int, i + pc@.len()) =~= pc@);
    true
}

/// Whether the characters `cs[lo..hi]` are exactly `p`.
pub fn slice_is(cs: &Vec<char>, lo: usize, hi: usize, p: &str) -> (b: bool)
    requires
        lo <= hi <= cs@.len(),
    ensures
        b == (cs@.subrange(lo as int, hi as int) == p@),
{
    let pc = chars_of(p);
    if hi - lo != pc.len() {
        return false;
    }
    let b = has_at(cs, lo, p);
    b
}

/// Index of the first `c` in `cs` at or after `i`.
pub fn find_char(cs: &Vec<char>, c: char, i: usize) -> (r: Option<usize>)
    ensures
        r matches Some(k) ==> find_char_from(cs@, c, i as int) == Some(k as int),
        r is None ==> find_char_from(cs@, c, i as int) is None,
{
    let mut k = i;
    while k < cs.len()
        invariant
            i <= k,
            find_char_from(cs@, c, i as int) == find_char_from(cs@, c, k as int),
        decreases cs@.len() - k,
    {
        if cs[k] == c {
            return Some(k);
        }
        k = k + 1;
    }
    None
}

/// Appends a string slice to a `String`.
pub fn push_str(out: &mut String, s: &str)
    ensures
        final(out)@ == old(out)@ + s@,
{
    let cs = chars_of(s);
    push_chars(out, &cs, 0, cs.len());
    assert(cs@.subrange(0, cs@.len() as int) =~= cs@);
}

/// Appends the characters `cs[lo..hi]` to a `String`.
pub fn push_chars(out: &mut String, cs: &Vec<char>, lo: usize, hi: usize)
    requires
        lo <= hi <= cs@.len(),
    ensures
        final(out)@ == old(out)@ + cs@.subrange(lo as int, hi as int),
{
    let ghost start = out@;
    let mut k = lo;
    while k < hi
        invariant
            lo <= k <= hi <= cs@.len(),
            out@ == start + cs@.subrange(lo as int, k as int),
        decreases hi - k,
    {
        push_char(out, cs[k]);
        assert(cs@.subrange(lo as int, k + 1) =~= cs@.subrange(lo as int, k as int).push(cs@[k as int]));
        k = k + 1;
    }
}

/// Value of a digit character in the given radix (2..=36).
pub open spec fn digit_value(c: char, radix: nat) -> Option<nat> {
    let v: int = if '0' <= c && c <= '9' {
        c as int - '0' as int
    } else if 'a' <= c && c <= 'z' {
        c as int - 'a' as int + 10
    } else if 'A' <= c && c <= 'Z' {
        c as int - 'A' as int + 10
    } else {
        -1
    };
    if 0 <= v < radix {
        Some(v as nat)
    } else {
        None
    }
}

/// Value of a non-empty run of digits, most significant first.
pub open spec fn digits_value(s: Seq<char>, radix: nat) -> Option<nat>
    decreases s.len(),
{
    if s.len() == 0 {
        None
    } else {
        match digit_value(s.last(), radix) {
            None => None,
            Some(d) => if s.len() == 1 {
                Some(d)
            } else {
                match digits_value(s.drop_last(), radix) {
                    None => None,
                    Some(v) => Some(v * radix + d),
                }
            },
        }
    }
}

/// std's unsigned integer parsing: an optional `+`, then digits.
pub open spec fn unsigned_value(s: Seq<char>, radix: nat) -> Option<nat> {
    if s.len() > 0 && s[0] == '+' {
        digits_value(s.drop_first(), radix)
    } else {
        digits_value(s, radix)
    }
}

/// std's `u32::from_str_radix` on the text `s`.
pub open spec fn parse_u32_spec(s: Seq<char>, radix: nat) -> Option<u32> {
    match unsigned_value(s, radix) {
        Some(v) => if v <= u32::MAX {
            Some(v as u32)
        } else {
            None
        },
        None => None,
    }
}

/// std's `usize` parsing (`str::parse::<usize>`) on the text `s`.
pub open spec fn parse_usize_spec(s: Seq<char>) -> Option<usize> {
    match unsigned_value(s, 10) {
        Some(v) => if v <= usize::MAX {
            Some(v as usize)
        } else {
            None
        },
        None => None,
    }
}

fn digit_of(c: char, radix: u32) -> (r: Option<u32>)
    requires
        2 <= radix <= 36,
    ensures
        r matches Some(d) ==> digit_value(c, radix as nat) == Some(d as nat),
        r is None ==> digit_value(c, radix as nat) is None,
{
    let v: u32 = if '0' <= c && c <= '9' {
        (c as u32) - ('0' as u32)
    } else if 'a' <= c && c <= 'z' {
        (c as u32) - ('a' as u32) + 10
    } else if 'A' <= c && c <= 'Z' {
        (c as u32) - ('A' as u32) + 10
    } else {
        return None;
    };
    if v < radix {
        Some(v)
    } else {
        None
    }
}

/// Digits of `cs[lo..hi]` read as an unsigned number, `None` when a
/// character is no digit, the run is empty, or the value exceeds `limit`.
fn digits_up_to(cs: &Vec<char>, lo: usize, hi: usize, radix: u32, limit: u64) -> (r: Option<u64>)
    requires
        lo <= hi <= cs@.len(),
        2 <= radix <= 36,
        limit >= 36,
    ensures
        r matches Some(v) ==> v <= limit && digits_value(cs@.subrange(lo as int, hi as int), radix as nat) == Some(v as nat),
        r is None ==> match digits_value(cs@.subrange(lo as int, hi as int), radix as nat) {
            Some(v) => v > limit,
            None => true,
        },
{
    if lo == hi {
        return None;
    }
    let ghost s = cs@.subrange(lo as int, hi as int);
    let mut acc: u64 = 0;
    let mut over = false;
    let mut k = lo;
    // acc is the exact value while not `over`; once `over`, the value exceeds the limit.
    while k < hi
        invariant
            lo <= k <= hi <= cs@.len(),
            2 <= radix <= 36,
            limit >= 36,
            s == cs@.subrange(lo as int, hi as int),
            k == lo ==> acc == 0 && !over,
            k > lo ==> match digits_value(cs@.subrange(lo as int, k as int), radix as nat) {
                Some(v) => if over { v > limit } else { v == acc && acc <= limit },
                None => false,
            },
        decreases hi - k,
    {
        let d = match digit_of(cs[k], radix) {
            Some(d) => d,
            None => {
                proof { lemma_invalid_digit_poisons(cs@, lo as int, k as int, hi as int, radix as nat); }
                return None;
            }
        };
        let ghost prefix = cs@.subrange(lo as int, k + 1);
        assert(prefix.drop_last() =~= cs@.subrange(lo as int, k as int));
        assert(prefix.last() == cs@[k as int]);
        if !over {
            let q: u64 = (limit - d as u64) / (radix as u64);
            if acc > q {
                proof {
                    let r = radix as int;
                    let a = acc as int;
                    let dd = d as int;
                    let l = limit as int;
                    assert(a * r + dd > l) by (nonlinear_arith)
                        requires a > (l - dd) / r, r >= 2, 0 <= dd < r, dd <= l;
                }
                over = true;
            } else {
                proof {
                    let r = radix as int;
                    let a = acc as int;
                    let dd = d as int;
                    let l = limit as int;
                    assert(a * r + dd <= l) by (nonlinear_arith)
                        requires 0 <= a <= (l - dd) / r, r >= 2, 0 <= dd < r, dd <= l;
                }
                acc = acc * (radix as u64) + d as u64;
            }
        } else {
            proof {
                let v = digits_value(cs@.subrange(lo as int, k as int), radix as nat).unwrap();
                assert(v * (radix as nat) + d >= v) by (nonlinear_arith) requires radix >= 2;
            }
        }
        k = k + 1;
    }
    assert(cs@.subrange(lo as int, k as int) =~= s);
    if over {
        None
    } else {
        Some(acc)
    }
}

proof fn lemma_invalid_digit_poisons(cs: Seq<char>, lo: int, k: int, hi: int, radix: nat)
    requires
        0 <= lo <= k < hi <= cs.len(),
        digit_value(cs[k], radix) is None,
    ensures
        digits_value(cs.subrange(lo, hi), radix) is None,
    decreases hi - k,
{
    let t = cs.subrange(lo, hi);
    if hi - 1 == k {
        assert(t.last() == cs[k]);
    } else {
        lemma_invalid_digit_poisons(cs, lo, k, hi - 1, radix);
        assert(t.drop_last() =~= cs.subrange(lo, hi - 1));
    }
}

/// std's `u32::from_str_radix` on `cs[lo..hi]`.
pub fn parse_u32_radix(cs: &Vec<char>, lo: usize, hi: usize, radix: u32) -> (r: Option<u32>)
    requires
        lo <= hi <= cs@.len(),
        2 <= radix <= 36,
    ensures
        r == parse_u32_spec(cs@.subrange(lo as int, hi as int), radix as nat),
{
    let ghost s = cs@.subrange(lo as int, hi as int);
    let start = if lo < hi && cs[lo] == '+' { lo + 1 } else { lo };
    assert(start > lo ==> s.drop_first() =~= cs@.subrange(start as int, hi as int));
    match digits_up_to(cs, start, hi, radix, 0xffff_ffff) {
        Some(v) => Some(v as u32),
        None => None,
    }
}

/// std's `str::parse::<usize>` on `cs[lo..hi]`.
pub fn parse_usize(cs: &Vec<char>, lo: usize, hi: usize) -> (r: Option<usize>)
    requires
        lo <= hi <= cs@.len(),
    ensures
        r == parse_usize_spec(cs@.subrange(lo as int, hi as int)),
{
    let ghost s = cs@.subrange(lo as int, hi as int);
    let start = if lo < hi && cs[lo] == '+' { lo + 1 } else { lo };
    assert(start > lo ==> s.drop_first() =~= cs@.subrange(start as int, hi as int));
    match digits_up_to(cs, start, hi, 10, usize::MAX as u64) {
        Some(v) => Some(v as usize),
        None => None,
    }
}

/// The character with the given scalar value, if it is one (std's `char::from_u32`).
pub open spec fn char_from_u32_spec(v: u32) -> Option<char> {
    if v < 0xD800 || (0xE000 <= v && v <= 0x10FFFF) {
        Some(v as char)
    } else {
        None
    }
}

/// std's `char::from_u32`: `Some` exactly for Unicode scalar values.
#[verifier::external_body]
pub(crate) fn char_from_u32(v: u32) -> (r: Option<char>)
    ensures
        r == char_from_u32_spec(v),
{
    char::from_u32(v)
}

} // verus!

verus! {

/// Searching a suffix finds the same place as searching the whole text from its start.
pub proof fn lemma_find_shift(s: Seq<char>, c: char, i: int, k: int)
    requires
        0 <= i <= k,
        i <= s.len(),
    ensures
        find_char_from(s, c, k) == (match find_char_from(s.subrange(i, s.len() as int), c, k - i) {
            Some(j) => Some(j + i),
            None => None,
        }),
    decreases s.len() - k,
{
    if k < s.len() {
        lemma_find_shift(s, c, i, k + 1);
    }
}


/// A new `String` holding `cs[lo..hi]`.
pub fn string_of_range(cs: &Vec<char>, lo: usize, hi: usize) -> (r: String)
    requires
        lo <= hi <= cs@.len(),
    ensures
        r@ == cs@.subrange(lo as int, hi as int),
{
    let mut out = String::new();
    push_chars(&mut out, cs, lo, hi);
    assert(Seq::<char>::empty() + cs@.subrange(lo as int, hi as int) =~= cs@.subrange(lo as int, hi as int));
    out
}


// ---------------------------------------------------------------- whitespace

/// Unicode White_Space, which is what both `char::is_whitespace` and the
/// regex class `\s` match.
pub open spec fn is_ws(c: char) -> bool {
    ('\t' <= c && c <= '\r') || c == ' ' || c == '\u{85}' || c == '\u{a0}' || c == '\u{1680}'
        || ('\u{2000}' <= c && c <= '\u{200a}') || c == '\u{2028}' || c == '\u{2029}'
        || c == '\u{202f}' || c == '\u{205f}' || c == '\u{3000}'
}

pub fn is_ws_char(c: char) -> (b: bool)
    ensures
        b == is_ws(c),
{
    ('\t' <= c && c <= '\r') || c == ' ' || c == '\u{85}' || c == '\u{a0}' || c == '\u{1680}'
        || ('\u{2000}' <= c && c <= '\u{200a}') || c == '\u{2028}' || c == '\u{2029}'
        || c == '\u{202f}' || c == '\u{205f}' || c == '\u{3000}'
}

/// First index at or after `i` that is not whitespace (or the end).
pub open spec fn skip_ws(s: Seq<char>, i: int) -> int
    decreases s.len() - i,
{
    if i < 0 || i >= s.len() {
        i
    } else if is_ws(s[i]) {
        skip_ws(s, i + 1)
    } else {
        i
    }
}

pub proof fn lemma_skip_ws(s: Seq<char>, i: int)
    requires
        0 <= i <= s.len(),
    ensures
        i <= skip_ws(s, i) <= s.len(),
        forall|j: int| i <= j < skip_ws(s, i) ==> is_ws(s[j]),
        skip_ws(s, i) < s.len() ==> !is_ws(s[skip_ws(s, i)]),
    decreases s.len() - i,
{
    if i < s.len() && is_ws(s[i]) {
        lemma_skip_ws(s, i + 1);
    }
}

/// Skipping whitespace from inside a run of whitespace ends where the run ends.
pub proof fn lemma_skip_ws_inside(s: Seq<char>, i: int, j: int)
    requires
        0 <= i <= j <= skip_ws(s, i),
        i <= s.len(),
    ensures
        skip_ws(s, j) == skip_ws(s, i),
    decreases j - i,
{
    lemma_skip_ws(s, i);
    if i < j {
        assert(is_ws(s[i]));
        lemma_skip_ws_inside(s, i + 1, j);
    }
}

pub fn skip_ws_exec(cs: &Vec<char>, i: usize) -> (r: usize)
    requires
        i <= cs@.len(),
    ensures
        r as int == skip_ws(cs@, i as int),
{
    let mut k = i;
    while k < cs.len() && is_ws_char(cs[k])
        invariant
            i <= k <= cs@.len(),
            skip_ws(cs@, i as int) == skip_ws(cs@, k as int),
        decreases cs@.len() - k,
    {
        k = k + 1;
    }
    k
}

// ---------------------------------------------------------------- numbers

pub open spec fn digit_char(d: nat) -> char {
    if d == 0 { '0' } else if d == 1 { '1' } else if d == 2 { '2' } else if d == 3 { '3' }
    else if d == 4 { '4' } else if d == 5 { '5' } else if d == 6 { '6' } else if d == 7 { '7' }
    else if d == 8 { '8' } else { '9' }
}

/// Decimal notation of a natural number (what `format!("{}", n)` prints).
pub open spec fn decimal(n: nat) -> Seq<char>
    decreases n,
{
    if n < 10 {
        seq![digit_char(n)]
    } else {
        decimal(n / 10) + seq![digit_char(n % 10)]
    }
}

fn digit_char_exec(d: usize) -> (c: char)
    requires
        d < 10,
    ensures
        c == digit_char(d as nat),
{
    if d == 0 { '0' } else if d == 1 { '1' } else if d == 2 { '2' } else if d == 3 { '3' }
    else if d == 4 { '4' } else if d == 5 { '5' } else if d == 6 { '6' } else if d == 7 { '7' }
    else if d == 8 { '8' } else { '9' }
}

/// Appends the decimal notation of `n`.
pub fn push_decimal(out: &mut String, n: usize)
    ensures
        final(out)@ == old(out)@ + decimal(n as nat),
    decreases n,
{
    if n >= 10 {
        push_decimal(out, n / 10);
    }
    push_char(out, digit_char_exec(n % 10));
    assert(n < 10 ==> decimal(n as nat) =~= seq![digit_char((n % 10) as nat)]);
}


// ---------------------------------------------------------------- words and trimming

/// First index at or after `i` that holds whitespace (or the end).
pub open spec fn word_end(s: Seq<char>, i: int) -> int
    decreases s.len() - i,
{
    if i < 0 || i >= s.len() {
        i
    } else if is_ws(s[i]) {
        i
    } else {
        word_end(s, i + 1)
    }
}

pub proof fn lemma_word_end(s: Seq<char>, i: int)
    requires
        0 <= i <= s.len(),
    ensures
        i <= word_end(s, i) <= s.len(),
        forall|j: int| i <= j < word_end(s, i) ==> !is_ws(s[j]),
        word_end(s, i) < s.len() ==> is_ws(s[word_end(s, i)]),
    decreases s.len() - i,
{
    if i < s.len() && !is_ws(s[i]) {
        lemma_word_end(s, i + 1);
    }
}

/// The whitespace-separated words of `s[i..]` (what `split_whitespace` yields).
pub open spec fn words_from(s: Seq<char>, i: int) -> Seq<Seq<char>>
    decreases s.len() - i,
{
    if i < 0 || i >= s.len() {
        Seq::empty()
    } else if is_ws(s[i]) {
        words_from(s, i + 1)
    } else {
        proof {
            lemma_word_end(s, i);
        }
        seq![s.subrange(i, word_end(s, i))] + words_from(s, word_end(s, i))
    }
}

/// Words joined with single spaces.
pub open spec fn join_spaces(ws: Seq<Seq<char>>) -> Seq<char>
    decreases ws.len(),
{
    if ws.len() == 0 {
        Seq::empty()
    } else if ws.len() == 1 {
        ws[0]
    } else {
        join_spaces(ws.drop_last()) + seq![' '] + ws.last()
    }
}

pub fn word_end_exec(cs: &Vec<char>, i: usize) -> (r: usize)
    requires
        i <= cs@.len(),
    ensures
        r as int == word_end(cs@, i as int),
{
    let mut k = i;
    while k < cs.len() && !is_ws_char(cs[k])
        invariant
            i <= k <= cs@.len(),
            word_end(cs@, i as int) == word_end(cs@, k as int),
        decreases cs@.len() - k,
    {
        k = k + 1;
    }
    k
}

/// The ranges of the whitespace-separated words of `cs[i..]`.
pub fn split_words(cs: &Vec<char>) -> (r: Vec<(usize, usize)>)
    ensures
        r@.len() == words_from(cs@, 0).len(),
        forall|j: int| #![trigger r@[j]] 0 <= j < r@.len() ==> (r@[j].0 <= r@[j].1 && r@[j].1 <= cs@.len()
            && cs@.subrange(r@[j].0 as int, r@[j].1 as int) == words_from(cs@, 0)[j]),
{
    let ghost ws = words_from(cs@, 0);
    let mut r: Vec<(usize, usize)> = Vec::new();
    let mut i: usize = 0;
    while i < cs.len()
        invariant
            i <= cs@.len(),
            ws == words_from(cs@, 0),
            r@.len() + words_from(cs@, i as int).len() == ws.len(),
            forall|j: int| #![trigger r@[j]] 0 <= j < r@.len() ==> (r@[j].0 <= r@[j].1 && r@[j].1 <= cs@.len()
                && cs@.subrange(r@[j].0 as int, r@[j].1 as int) == ws[j]),
            forall|j: int| 0 <= j < words_from(cs@, i as int).len() ==> ws[r@.len() + j] == #[trigger] words_from(cs@, i as int)[j],
        decreases cs@.len() - i,
    {
        if is_ws_char(cs[i]) {
            i = i + 1;
        } else {
            let e = word_end_exec(cs, i);
            proof {
                lemma_word_end(cs@, i as int);
                let rest = words_from(cs@, e as int);
                assert(words_from(cs@, i as int) =~= seq![cs@.subrange(i as int, e as int)] + rest);
                assert(words_from(cs@, i as int)[0] == cs@.subrange(i as int, e as int));
                assert forall|j: int| 0 <= j < rest.len() implies ws[r@.len() + 1 + j] == #[trigger] rest[j] by {
                    assert(words_from(cs@, i as int)[j + 1] == rest[j]);
                }
                assert(ws[r@.len() as int + 0] == words_from(cs@, i as int)[0]);
            }
            let ghost old_r = r@;
            r.push((i, e));
            proof {
                assert forall|j: int| #![trigger r@[j]] 0 <= j < r@.len() implies (r@[j].0 <= r@[j].1 && r@[j].1 <= cs@.len()
                    && cs@.subrange(r@[j].0 as int, r@[j].1 as int) == ws[j]) by {
                    if j < old_r.len() {
                        assert(r@[j] == old_r[j]);
                        assert(cs@.subrange(old_r[j].0 as int, old_r[j].1 as int) == ws[j]);
                    } else {
                        assert(j == old_r.len());
                        assert(r@[j] == (i, e));
                    }
                }
            }
            i = e;
        }
    }
    r
}

/// The whitespace-separated words of `s` joined with single spaces.
pub fn collapse_whitespace(s: &str) -> (r: String)
    ensures
        r@ == join_spaces(words_from(s@, 0)),
{
    let cs = chars_of(s);
    let words = split_words(&cs);
    let ghost ws = words_from(cs@, 0);
    let mut out = String::new();
    let mut k: usize = 0;
    while k < words.len()
        invariant
            cs@ == s@,
            ws == words_from(cs@, 0),
            words@.len() == ws.len(),
            k <= words@.len(),
            forall|j: int| #![trigger words@[j]] 0 <= j < words@.len() ==> (words@[j].0 <= words@[j].1 && words@[j].1 <= cs@.len()
                && cs@.subrange(words@[j].0 as int, words@[j].1 as int) == ws[j]),
            out@ == join_spaces(ws.subrange(0, k as int)),
        decreases words@.len() - k,
    {
        if k > 0 {
            push_char(&mut out, ' ');
        }
        let w = words[k];
        let piece = string_of_range(&cs, w.0, w.1);
        push_str(&mut out, piece.as_str());
        proof {
            let sub = ws.subrange(0, k + 1);
            assert(sub.drop_last() =~= ws.subrange(0, k as int));
            assert(sub.last() == ws[k as int]);
            if k == 0 {
                assert(sub.len() == 1);
                assert(out@ =~= sub[0]);
            }
        }
        k = k + 1;
    }
    assert(ws.subrange(0, ws.len() as int) =~= ws);
    out
}

/// `str::trim`: the range of `s` without its leading and trailing whitespace.
pub open spec fn trim_start_index(s: Seq<char>) -> int {
    skip_ws(s, 0)
}

/// Largest index `k <= j` such that `s[..k]` does not end in whitespace.
pub open spec fn trim_end_index(s: Seq<char>, j: int) -> int
    decreases j,
{
    if j <= 0 || j > s.len() {
        if j > s.len() { s.len() as int } else { 0 }
    } else if is_ws(s[j - 1]) {
        trim_end_index(s, j - 1)
    } else {
        j
    }
}

pub open spec fn trim_seq(s: Seq<char>) -> Seq<char> {
    let a = trim_start_index(s);
    let b = trim_end_index(s, s.len() as int);
    if b <= a {
        Seq::empty()
    } else {
        s.subrange(a, b)
    }
}

pub proof fn lemma_trim_end_index(s: Seq<char>, j: int)
    requires
        0 <= j <= s.len(),
    ensures
        0 <= trim_end_index(s, j) <= j,
        forall|k: int| trim_end_index(s, j) <= k < j ==> is_ws(s[k]),
        trim_end_index(s, j) > 0 ==> !is_ws(s[trim_end_index(s, j) - 1]),
    decreases j,
{
    if j > 0 && is_ws(s[j - 1]) {
        lemma_trim_end_index(s, j - 1);
    }
}

/// Trimming the empty text gives the empty text.
pub proof fn lemma_trim_empty()
    ensures
        trim_seq(Seq::<char>::empty()) == Seq::<char>::empty(),
{
    assert(skip_ws(Seq::<char>::empty(), 0) == 0);
    assert(trim_end_index(Seq::<char>::empty(), 0) == 0);
}

/// Trimming a trimmed text changes nothing.
pub proof fn lemma_trim_idempotent(s: Seq<char>)
    ensures
        trim_seq(trim_seq(s)) == trim_seq(s),
{
    let t = trim_seq(s);
    let a = trim_start_index(s);
    let b = trim_end_index(s, s.len() as int);
    lemma_skip_ws(s, 0);
    lemma_trim_end_index(s, s.len() as int);
    if b <= a {
        assert(skip_ws(t, 0) == 0);
        assert(trim_end_index(t, 0) == 0);
        assert(trim_seq(t) =~= t);
    } else {
        assert(t[0] == s[a]);
        assert(t[t.len() - 1] == s[b - 1]);
        assert(skip_ws(t, 0) == 0);
        assert(trim_end_index(t, t.len() as int) == t.len());
        assert(t.subrange(0, t.len() as int) =~= t);
    }
}

/// The range `(lo, hi)` of `cs` without leading and trailing whitespace.
pub fn trim_range(cs: &Vec<char>) -> (r: (usize, usize))
    ensures
        r.0 <= r.1 <= cs@.len(),
        cs@.subrange(r.0 as int, r.1 as int) == trim_seq(cs@),
{
    let a = skip_ws_exec(cs, 0);
    proof {
        lemma_skip_ws(cs@, 0);
        lemma_trim_end_index(cs@, cs@.len() as int);
    }
    let mut b = cs.len();
    while b > 0 && is_ws_char(cs[b - 1])
        invariant
            b <= cs@.len(),
            trim_end_index(cs@, cs@.len() as int) == trim_end_index(cs@, b as int),
        decreases b,
    {
        b = b - 1;
    }
    if b <= a {
        assert(cs@.subrange(a as int, a as int) =~= Seq::<char>::empty());
        (a, a)
    } else {
        (a, b)
    }
}


// ---------------------------------------------------------------- substring search

/// Index of the first occurrence of `pat` at or after `i`.
pub open spec fn first_occurrence(s: Seq<char>, pat: Seq<char>, i: int) -> Option<int>
    decreases s.len() - i,
{
    if i < 0 || i >= s.len() {
        None
    } else if occurs_at(s, i, pat) {
        Some(i)
    } else {
        first_occurrence(s, pat, i + 1)
    }
}

pub proof fn lemma_first_occurrence(s: Seq<char>, pat: Seq<char>, i: int)
    requires
        0 <= i,
    ensures
        first_occurrence(s, pat, i) matches Some(k) ==> i <= k && occurs_at(s, k, pat)
            && forall|j: int| i <= j < k ==> !occurs_at(s, j, pat),
    decreases s.len() - i,
{
    if i < s.len() && !occurs_at(s, i, pat) {
        lemma_first_occurrence(s, pat, i + 1);
    }
}

pub fn first_occurrence_exec(cs: &Vec<char>, pat: &str, i: usize) -> (r: Option<usize>)
    ensures
        r matches Some(k) ==> first_occurrence(cs@, pat@, i as int) == Some(k as int),
        r is None ==> first_occurrence(cs@, pat@, i as int) is None,
{
    let mut k = i;
    while k < cs.len()
        invariant
            i <= k,
            first_occurrence(cs@, pat@, i as int) == first_occurrence(cs@, pat@, k as int),
        decreases cs@.len() - k,
    {
        if has_at(cs, k, pat) {
            return Some(k);
        }
        k = k + 1;
    }
    None
}

/// Searching a suffix finds the same occurrence, shifted.
pub proof fn lemma_first_occurrence_shift(s: Seq<char>, pat: Seq<char>, i: int, k: int)
    requires
        0 <= i <= k,
        i <= s.len(),
    ensures
        first_occurrence(s, pat, k) == (match first_occurrence(s.subrange(i, s.len() as int), pat, k - i) {
            Some(j) => Some(j + i),
            None => None,
        }),
    decreases s.len() - k,
{
    let t = s.subrange(i, s.len() as int);
    if k < s.len() {
        assert(occurs_at(s, k, pat) == occurs_at(t, k - i, pat)) by {
            if k + pat.len() <= s.len() {
                assert(s.subrange(k, k + pat.len()) =~= t.subrange(k - i, k - i + pat.len()));
            }
        }
        lemma_first_occurrence_shift(s, pat, i, k + 1);
    }
}

} // verus!
