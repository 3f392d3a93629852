//! HTML escaping and entity decoding.

use vstd::prelude::*;
use crate::text::{
    char_from_u32, char_from_u32_spec, chars_of, parse_u32_radix, parse_u32_spec, push_char, push_chars, push_str, slice_is,
};

verus! {

/// What one character becomes when escaped.
pub open spec fn escape_char(c: char) -> Seq<char> {
    if c == '&' {
        seq!['&', 'a', 'm', 'p', ';']
    } else if c == '<' {
        seq!['&', 'l', 't', ';']
    } else if c == '>' {
        seq!['&', 'g', 't', ';']
    } else if c == '"' {
        seq!['&', 'q', 'u', 'o', 't', ';']
    } else {
        seq![c]
    }
}

/// The escaped form of a whole text: each character escaped in turn.
pub open spec fn escape_seq(s: Seq<char>) -> Seq<char>
    decreases s.len(),
{
    if s.len() == 0 {
        Seq::empty()
    } else {
        escape_seq(s.drop_last()) + escape_char(s.last())
    }
}

/// Appends the escaped form of one character.
pub fn push_escaped_char(out: &mut String, c: char)
    ensures
        final(out)@ == old(out)@ + escape_char(c),
{
    let ghost start = out@;
    if c == '&' {
        push_char(out, '&');
        push_char(out, 'a');
        push_char(out, 'm');
        push_char(out, 'p');
        push_char(out, ';');
    } else if c == '<' {
        push_char(out, '&');
        push_char(out, 'l');
        push_char(out, 't');
        push_char(out, ';');
    } else if c == '>' {
        push_char(out, '&');
        push_char(out, 'g');
        push_char(out, 't');
        push_char(out, ';');
    } else if c == '"' {
        push_char(out, '&');
        push_char(out, 'q');
        push_char(out, 'u');
        push_char(out, 'o');
        push_char(out, 't');
        push_char(out, ';');
    } else {
        push_char(out, c);
    }
    assert(out@ =~= start + escape_char(c));
}

/// Appends the escaped form of `cs[lo..hi]`.
pub fn push_escaped(out: &mut String, cs: &Vec<char>, lo: usize, hi: usize)
    requires
        lo <= hi <= cs@.len(),
    ensures
        final(out)@ == old(out)@ + escape_seq(cs@.subrange(lo as int, hi as int)),
{
    let ghost start = out@;
    let mut i = lo;
    assert(escape_seq(cs@.subrange(lo as int, lo as int)) =~= Seq::<char>::empty());
    assert(start + Seq::<char>::empty() =~= start);
    while i < hi
        invariant
            lo <= i <= hi <= cs@.len(),
            out@ == start + escape_seq(cs@.subrange(lo as int, i as int)),
        decreases hi - i,
    {
        push_escaped_char(out, cs[i]);
        assert(cs@.subrange(lo as int, i + 1).drop_last() =~= cs@.subrange(lo as int, i as int));
        assert(out@ =~= start + escape_seq(cs@.subrange(lo as int, i + 1)));
        i = i + 1;
    }
}

/// Escape HTML special characters (`&`, `<`, `>`, `"`).
pub fn html_escape(s: &str) -> (r: String)
    ensures
        r@ == escape_seq(s@),
{
    let cs = chars_of(s);
    let mut out = String::new();
    push_escaped(&mut out, &cs, 0, cs.len());
    assert(cs@.subrange(0, cs@.len() as int) =~= cs@);
    assert(Seq::<char>::empty() + escape_seq(cs@) =~= escape_seq(cs@));
    out
}

/// What a named or numeric character reference (without `&` and `;`) stands for.
pub open spec fn decode_entity_spec(ent: Seq<char>) -> Option<Seq<char>> {
    if ent == "amp"@ {
        Some(seq!['&'])
    } else if ent == "lt"@ {
        Some(seq!['<'])
    } else if ent == "gt"@ {
        Some(seq!['>'])
    } else if ent == "quot"@ {
        Some(seq!['"'])
    } else if ent == "apos"@ || ent == "#39"@ {
        Some(seq!['\''])
    } else if ent == "nbsp"@ {
        Some(seq![' '])
    } else if ent.len() >= 2 && ent[0] == '#' && (ent[1] == 'x' || ent[1] == 'X') {
        match parse_u32_spec(ent.subrange(2, ent.len() as int), 16) {
            Some(v) => match char_from_u32_spec(v) {
                Some(c) => Some(seq![c]),
                None => None,
            },
            None => None,
        }
    } else if ent.len() >= 1 && ent[0] == '#' {
        match parse_u32_spec(ent.subrange(1, ent.len() as int), 10) {
            Some(v) => match char_from_u32_spec(v) {
                Some(c) => Some(seq![c]),
                None => None,
            },
            None => None,
        }
    } else {
        None
    }
}

/// A character that may stand in the name of a character reference.
pub open spec fn is_ref_name_char(c: char) -> bool {
    ('a' <= c && c <= 'z') || ('A' <= c && c <= 'Z') || ('0' <= c && c <= '9')
}

/// The end of the run of name characters of `s` that starts at `i`.
pub open spec fn name_run_end(s: Seq<char>, i: int) -> int
    decreases s.len() - i,
{
    if 0 <= i < s.len() && is_ref_name_char(s[i]) {
        name_run_end(s, i + 1)
    } else {
        i
    }
}

/// Where the name of the character reference that opens `s` starts: after
/// the `&`, or for a numeric one after `&#`, an optional `x` or `X` and an
/// optional `+`.
pub open spec fn reference_name_start(s: Seq<char>) -> int {
    if s.len() > 1 && s[1] == '#' {
        let j: int = if s.len() > 2 && (s[2] == 'x' || s[2] == 'X') { 3 } else { 2 };
        if s.len() > j && s[j] == '+' { j + 1 } else { j }
    } else {
        1
    }
}

/// Where the character reference that opens `s` ends (the index of its
/// `;`), if `s` opens with one: `&`, then for a numeric reference `#`, an
/// optional `x` or `X` and an optional `+`, then one or more letters or
/// digits, then `;`. Any other `&` is a plain character.
pub open spec fn reference_end(s: Seq<char>) -> Option<int> {
    let j = reference_name_start(s);
    let k = name_run_end(s, j);
    if k > j && k < s.len() && s[k] == ';' {
        Some(k)
    } else {
        None
    }
}

/// Decoding of a text: each `&name;` or `&#...;` reference that decodes is
/// replaced; an unknown reference and every other character (a `&` that opens
/// no reference among them) is kept as it is.
pub open spec fn unescape_seq(s: Seq<char>) -> Seq<char>
    decreases s.len(),
{
    if s.len() == 0 {
        Seq::empty()
    } else if s[0] != '&' {
        seq![s[0]] + unescape_seq(s.drop_first())
    } else {
        match reference_end(s) {
            None => seq!['&'] + unescape_seq(s.drop_first()),
            Some(e) => (match decode_entity_spec(s.subrange(1, e)) {
                Some(d) => d,
                None => s.subrange(0, e + 1),
            }) + unescape_seq(s.subrange(e + 1, s.len() as int)),
        }
    }
}

fn is_name_char(c: char) -> (b: bool)
    ensures
        b == is_ref_name_char(c),
{
    ('a' <= c && c <= 'z') || ('A' <= c && c <= 'Z') || ('0' <= c && c <= '9')
}

fn decode_number(cs: &Vec<char>, lo: usize, hi: usize, radix: u32) -> (r: Option<String>)
    requires
        lo <= hi <= cs@.len(),
        radix == 10 || radix == 16,
    ensures
        r matches Some(x) ==> (match parse_u32_spec(cs@.subrange(lo as int, hi as int), radix as nat) {
            Some(v) => char_from_u32_spec(v) == Some(x@[0]) && x@.len() == 1,
            None => false,
        }),
        r is None ==> (match parse_u32_spec(cs@.subrange(lo as int, hi as int), radix as nat) {
            Some(v) => char_from_u32_spec(v) is None,
            None => true,
        }),
{
    match parse_u32_radix(cs, lo, hi, radix) {
        Some(v) => match char_from_u32(v) {
            Some(c) => {
                let mut out = String::new();
                push_char(&mut out, c);
                Some(out)
            },
            None => None,
        },
        None => None,
    }
}

/// Decodes the reference `cs[lo..hi]` (without `&` and `;`).
fn decode_entity_at(cs: &Vec<char>, lo: usize, hi: usize) -> (r: Option<String>)
    requires
        lo <= hi <= cs@.len(),
    ensures
        match r {
            Some(x) => decode_entity_spec(cs@.subrange(lo as int, hi as int)) == Some(x@),
            None => decode_entity_spec(cs@.subrange(lo as int, hi as int)) is None,
        },
{
    let ghost ent = cs@.subrange(lo as int, hi as int);
    let mut out = String::new();
    if slice_is(cs, lo, hi, "amp") {
        push_char(&mut out, '&');
        return Some(out);
    }
    if slice_is(cs, lo, hi, "lt") {
        push_char(&mut out, '<');
        return Some(out);
    }
    if slice_is(cs, lo, hi, "gt") {
        push_char(&mut out, '>');
        return Some(out);
    }
    if slice_is(cs, lo, hi, "quot") {
        push_char(&mut out, '"');
        return Some(out);
    }
    if slice_is(cs, lo, hi, "apos") || slice_is(cs, lo, hi, "#39") {
        push_char(&mut out, '\'');
        return Some(out);
    }
    if slice_is(cs, lo, hi, "nbsp") {
        push_char(&mut out, ' ');
        return Some(out);
    }
    if hi - lo >= 2 && cs[lo] == '#' && (cs[lo + 1] == 'x' || cs[lo + 1] == 'X') {
        assert(ent.subrange(2, ent.len() as int) =~= cs@.subrange(lo + 2, hi as int));
        let r = decode_number(cs, lo + 2, hi, 16);
        proof {
            if r is Some {
                let x = r->0;
                assert(x@ =~= seq![x@[0]]);
            }
        }
        return r;
    }
    if hi - lo >= 1 && cs[lo] == '#' {
        assert(ent.subrange(1, ent.len() as int) =~= cs@.subrange(lo + 1, hi as int));
        let r = decode_number(cs, lo + 1, hi, 10);
        proof {
            if r is Some {
                let x = r->0;
                assert(x@ =~= seq![x@[0]]);
            }
        }
        return r;
    }
    None
}

/// Decodes one character reference (the text between `&` and `;`):
/// `amp`, `lt`, `gt`, `quot`, `apos`, `#39`, `nbsp`, `#xHH..` and `#DD..`.
pub fn decode_entity(entity: &str) -> (r: Option<String>)
    ensures
        match r {
            Some(x) => decode_entity_spec(entity@) == Some(x@),
            None => decode_entity_spec(entity@) is None,
        },
{
    let cs = chars_of(entity);
    assert(cs@.subrange(0, cs@.len() as int) =~= cs@);
    decode_entity_at(&cs, 0, cs.len())
}

/// Decode common HTML entities and numeric character references.
pub fn html_unescape(s: &str) -> (r: String)
    ensures
        r@ == unescape_seq(s@),
{
    let cs = chars_of(s);
    let n = cs.len();
    let mut out = String::new();
    let mut i: usize = 0;
    assert(cs@.subrange(0, n as int) =~= cs@);
    assert(out@ + unescape_seq(cs@) =~= unescape_seq(cs@));
    while i < n
        invariant
            n == cs@.len(),
            cs@ == s@,
            i <= n,
            out@ + unescape_seq(cs@.subrange(i as int, n as int)) == unescape_seq(cs@),
        decreases n - i,
    {
        let ghost t = cs@.subrange(i as int, n as int);
        if cs[i] != '&' {
            assert(t.drop_first() =~= cs@.subrange(i + 1, n as int));
            push_char(&mut out, cs[i]);
            assert(out@ + unescape_seq(cs@.subrange(i + 1, n as int)) =~= unescape_seq(cs@));
            i = i + 1;
        } else {
            let mut j: usize = i + 1;
            if j < n && cs[j] == '#' {
                j = j + 1;
                if j < n && (cs[j] == 'x' || cs[j] == 'X') {
                    j = j + 1;
                }
                if j < n && cs[j] == '+' {
                    j = j + 1;
                }
            }
            let mut k: usize = j;
            while k < n && is_name_char(cs[k])
                invariant
                    n == cs@.len(),
                    i < j <= k <= n,
                    t == cs@.subrange(i as int, n as int),
                    name_run_end(t, (j - i) as int) == name_run_end(t, (k - i) as int),
                decreases n - k,
            {
                assert(t[(k - i) as int] == cs@[k as int]);
                k = k + 1;
            }
            proof {
                if k < n {
                    assert(t[(k - i) as int] == cs@[k as int]);
                }
                assert(t[0] == '&');
                if i + 1 < n {
                    assert(t[1] == cs@[i + 1]);
                }
                if i + 2 < n {
                    assert(t[2] == cs@[i + 2]);
                }
                if i + 3 < n {
                    assert(t[3] == cs@[i + 3]);
                }
                assert(reference_name_start(t) == j - i);
            }
            if k > j && k < n && cs[k] == ';' {
                assert(reference_end(t) == Some((k - i) as int));
                assert(t.subrange(1, (k - i) as int) =~= cs@.subrange(i + 1, k as int));
                assert(t.subrange(0, (k - i) + 1) =~= cs@.subrange(i as int, k + 1));
                assert(t.subrange((k - i) + 1, t.len() as int) =~= cs@.subrange(k + 1, n as int));
                match decode_entity_at(&cs, i + 1, k) {
                    Some(d) => {
                        push_str(&mut out, d.as_str());
                    },
                    None => {
                        push_chars(&mut out, &cs, i, k + 1);
                    },
                }
                i = k + 1;
            } else {
                assert(reference_end(t) is None);
                assert(t.drop_first() =~= cs@.subrange(i + 1, n as int));
                push_char(&mut out, '&');
                assert(out@ + unescape_seq(cs@.subrange(i + 1, n as int)) =~= unescape_seq(cs@));
                i = i + 1;
            }
        }
    }
    assert(cs@.subrange(n as int, n as int) =~= Seq::<char>::empty());
    out
}

/// Escaping the first character and then the rest is escaping the whole text.
pub proof fn lemma_escape_front(s: Seq<char>)
    requires
        s.len() > 0,
    ensures
        escape_seq(s) == escape_char(s[0]) + escape_seq(s.drop_first()),
    decreases s.len(),
{
    if s.len() == 1 {
        assert(s.drop_last() =~= Seq::<char>::empty());
        assert(s.drop_first() =~= Seq::<char>::empty());
        assert(escape_seq(s.drop_first()) =~= Seq::<char>::empty());
        assert(escape_char(s[0]) + Seq::<char>::empty() =~= escape_char(s[0]));
    } else {
        lemma_escape_front(s.drop_last());
        assert(s.drop_last().drop_first() =~= s.drop_first().drop_last());
        assert(s.drop_first().last() == s.last());
        assert(escape_seq(s) =~= escape_char(s[0]) + escape_seq(s.drop_first()));
    }
}

proof fn lemma_name_run_to(s: Seq<char>, i: int, e: int)
    requires
        0 <= i <= e < s.len(),
        forall|m: int| i <= m < e ==> is_ref_name_char(#[trigger] s[m]),
        !is_ref_name_char(s[e]),
    ensures
        name_run_end(s, i) == e,
    decreases e - i,
{
    if i < e {
        lemma_name_run_to(s, i + 1, e);
    }
}

proof fn lemma_unescape_reference(t: Seq<char>, rest: Seq<char>, c: char)
    requires
        t.len() >= 3,
        t[0] == '&',
        t.last() == ';',
        forall|j: int| 1 <= j < t.len() - 1 ==> 'a' <= #[trigger] t[j] && t[j] <= 'z',
        decode_entity_spec(t.subrange(1, t.len() - 1)) == Some(seq![c]),
    ensures
        unescape_seq(t + rest) == seq![c] + unescape_seq(rest),
{
    let u = t + rest;
    let e = t.len() - 1;
    assert forall|m: int| 1 <= m < e implies is_ref_name_char(#[trigger] u[m]) by {
        assert(u[m] == t[m]);
    }
    assert(u[e] == ';');
    assert(u[1] == t[1]);
    lemma_name_run_to(u, 1, e);
    assert(reference_end(u) == Some(e));
    assert(u.subrange(1, e) =~= t.subrange(1, e));
    assert(u.subrange(e + 1, u.len() as int) =~= rest);
}

proof fn lemma_ref_amp(rest: Seq<char>)
    ensures
        unescape_seq(seq!['&', 'a', 'm', 'p', ';'] + rest) == seq!['&'] + unescape_seq(rest),
{
    reveal_strlit("amp");
    reveal_strlit("lt");
    reveal_strlit("gt");
    reveal_strlit("quot");
    reveal_strlit("apos");
    reveal_strlit("#39");
    reveal_strlit("nbsp");
    let t = seq!['&', 'a', 'm', 'p', ';'];
    assert(t.subrange(1, 4) =~= "amp"@);
    assert(decode_entity_spec(t.subrange(1, 4)) == Some(seq!['&']));
    lemma_unescape_reference(t, rest, '&');
}

proof fn lemma_ref_lt(rest: Seq<char>)
    ensures
        unescape_seq(seq!['&', 'l', 't', ';'] + rest) == seq!['<'] + unescape_seq(rest),
{
    reveal_strlit("amp");
    reveal_strlit("lt");
    reveal_strlit("gt");
    reveal_strlit("quot");
    reveal_strlit("apos");
    reveal_strlit("#39");
    reveal_strlit("nbsp");
    let t = seq!['&', 'l', 't', ';'];
    assert(t.subrange(1, 3) =~= "lt"@);
    assert(decode_entity_spec(t.subrange(1, 3)) == Some(seq!['<']));
    lemma_unescape_reference(t, rest, '<');
}

proof fn lemma_ref_gt(rest: Seq<char>)
    ensures
        unescape_seq(seq!['&', 'g', 't', ';'] + rest) == seq!['>'] + unescape_seq(rest),
{
    reveal_strlit("amp");
    reveal_strlit("lt");
    reveal_strlit("gt");
    reveal_strlit("quot");
    reveal_strlit("apos");
    reveal_strlit("#39");
    reveal_strlit("nbsp");
    let t = seq!['&', 'g', 't', ';'];
    assert(t.subrange(1, 3) =~= "gt"@);
    assert("gt"@ != "lt"@) by {
        assert("gt"@[0] != "lt"@[0]);
    }
    assert(decode_entity_spec(t.subrange(1, 3)) == Some(seq!['>']));
    lemma_unescape_reference(t, rest, '>');
}

proof fn lemma_ref_quot(rest: Seq<char>)
    ensures
        unescape_seq(seq!['&', 'q', 'u', 'o', 't', ';'] + rest) == seq!['"'] + unescape_seq(rest),
{
    reveal_strlit("amp");
    reveal_strlit("lt");
    reveal_strlit("gt");
    reveal_strlit("quot");
    reveal_strlit("apos");
    reveal_strlit("#39");
    reveal_strlit("nbsp");
    let t = seq!['&', 'q', 'u', 'o', 't', ';'];
    assert(t.subrange(1, 5) =~= "quot"@);
    assert(decode_entity_spec(t.subrange(1, 5)) == Some(seq!['"']));
    lemma_unescape_reference(t, rest, '"');
}

proof fn lemma_ref_apos(rest: Seq<char>)
    ensures
        unescape_seq(seq!['&', 'a', 'p', 'o', 's', ';'] + rest) == seq!['\''] + unescape_seq(rest),
{
    reveal_strlit("amp");
    reveal_strlit("lt");
    reveal_strlit("gt");
    reveal_strlit("quot");
    reveal_strlit("apos");
    reveal_strlit("#39");
    reveal_strlit("nbsp");
    let t = seq!['&', 'a', 'p', 'o', 's', ';'];
    assert(t.subrange(1, 5) =~= "apos"@);
    assert(decode_entity_spec(t.subrange(1, 5)) == Some(seq!['\'']));
    lemma_unescape_reference(t, rest, '\'');
}

proof fn lemma_ref_nbsp(rest: Seq<char>)
    ensures
        unescape_seq(seq!['&', 'n', 'b', 's', 'p', ';'] + rest) == seq![' '] + unescape_seq(rest),
{
    reveal_strlit("amp");
    reveal_strlit("lt");
    reveal_strlit("gt");
    reveal_strlit("quot");
    reveal_strlit("apos");
    reveal_strlit("#39");
    reveal_strlit("nbsp");
    let t = seq!['&', 'n', 'b', 's', 'p', ';'];
    assert(t.subrange(1, 5) =~= "nbsp"@);
    assert(decode_entity_spec(t.subrange(1, 5)) == Some(seq![' ']));
    lemma_unescape_reference(t, rest, ' ');
}

proof fn lemma_ref_39(rest: Seq<char>)
    ensures
        unescape_seq(seq!['&', '#', '3', '9', ';'] + rest) == seq!['\''] + unescape_seq(rest),
{
    reveal_strlit("amp");
    reveal_strlit("lt");
    reveal_strlit("gt");
    reveal_strlit("quot");
    reveal_strlit("apos");
    reveal_strlit("#39");
    let t = seq!['&', '#', '3', '9', ';'];
    let u = t + rest;
    let e = 4int;
    assert(u[1] == '#' && u[2] == '3' && u[3] == '9' && u[4] == ';');
    assert(reference_name_start(u) == 2);
    assert(name_run_end(u, 4) == 4);
    assert(name_run_end(u, 3) == 4);
    assert(name_run_end(u, 2) == 4);
    assert(reference_end(u) == Some(e));
    assert(u.subrange(1, e) =~= "#39"@);
    assert("#39"@ != "amp"@) by {
        assert("#39"@[0] != "amp"@[0]);
    }
    assert("#39"@.len() != "lt"@.len());
    assert("#39"@.len() != "gt"@.len());
    assert("#39"@.len() != "quot"@.len());
    assert(decode_entity_spec(u.subrange(1, e)) == Some(seq!['\'']));
    assert(u.subrange(e + 1, u.len() as int) =~= rest);
}

/// Each named reference of the table decodes to its character, whatever
/// text follows: `&amp;` `&`, `&lt;` `<`, `&gt;` `>`, `&quot;` `"`, `&apos;`
/// and `&#39;` `'`, `&nbsp;` a space.
pub proof fn lemma_named_references(rest: Seq<char>)
    ensures
        unescape_seq(seq!['&', 'a', 'm', 'p', ';'] + rest) == seq!['&'] + unescape_seq(rest),
        unescape_seq(seq!['&', 'l', 't', ';'] + rest) == seq!['<'] + unescape_seq(rest),
        unescape_seq(seq!['&', 'g', 't', ';'] + rest) == seq!['>'] + unescape_seq(rest),
        unescape_seq(seq!['&', 'q', 'u', 'o', 't', ';'] + rest) == seq!['"'] + unescape_seq(rest),
        unescape_seq(seq!['&', 'a', 'p', 'o', 's', ';'] + rest) == seq!['\''] + unescape_seq(rest),
        unescape_seq(seq!['&', '#', '3', '9', ';'] + rest) == seq!['\''] + unescape_seq(rest),
        unescape_seq(seq!['&', 'n', 'b', 's', 'p', ';'] + rest) == seq![' '] + unescape_seq(rest),
{
    lemma_ref_amp(rest);
    lemma_ref_lt(rest);
    lemma_ref_gt(rest);
    lemma_ref_quot(rest);
    lemma_ref_apos(rest);
    lemma_ref_39(rest);
    lemma_ref_nbsp(rest);
}

proof fn lemma_decimal_reads_back(n: nat)
    ensures
        crate::text::digits_value(crate::text::decimal(n), 10) == Some(n),
        crate::text::decimal(n).len() >= 1,
        forall|q: int| 0 <= q < crate::text::decimal(n).len() ==> '0' <= #[trigger] crate::text::decimal(n)[q] <= '9',
    decreases n,
{
    let d = crate::text::digit_char(n % 10);
    assert(crate::text::digit_value(d, 10) == Some(n % 10));
    if n >= 10 {
        lemma_decimal_reads_back(n / 10);
        let a = crate::text::decimal(n / 10);
        let s = crate::text::decimal(n);
        assert(s == a + seq![d]);
        assert(s.drop_last() =~= a);
        assert(s.last() == d);
        assert((n / 10) * 10 + n % 10 == n);
        assert forall|q: int| 0 <= q < s.len() implies '0' <= #[trigger] s[q] <= '9' by {
            if q < a.len() {
                assert(s[q] == a[q]);
            }
        }
    } else {
        assert(crate::text::decimal(n) == seq![d]);
    }
}

/// A decimal character reference `&#N;` decodes to the character with code
/// `N`, for every `N` that is one, whatever text follows.
pub proof fn lemma_decimal_reference(v: u32, rest: Seq<char>)
    requires
        char_from_u32_spec(v) is Some,
    ensures
        unescape_seq(seq!['&', '#'] + crate::text::decimal(v as nat) + seq![';'] + rest)
            == seq![char_from_u32_spec(v)->0] + unescape_seq(rest),
{
    let dv = crate::text::decimal(v as nat);
    lemma_decimal_reads_back(v as nat);
    let u = seq!['&', '#'] + dv + seq![';'] + rest;
    let e = 2 + dv.len() as int;
    assert(u[0] == '&' && u[1] == '#');
    assert(u[2] == dv[0]);
    assert(reference_name_start(u) == 2);
    assert forall|m: int| 2 <= m < e implies is_ref_name_char(#[trigger] u[m]) by {
        assert(u[m] == dv[m - 2]);
    }
    assert(u[e] == ';');
    lemma_name_run_to(u, 2, e);
    assert(reference_end(u) == Some(e));
    let ent = u.subrange(1, e);
    assert(ent =~= seq!['#'] + dv);
    assert(ent.subrange(1, ent.len() as int) =~= dv);
    reveal_strlit("amp");
    reveal_strlit("lt");
    reveal_strlit("gt");
    reveal_strlit("quot");
    reveal_strlit("apos");
    reveal_strlit("#39");
    reveal_strlit("nbsp");
    assert(ent[0] == '#');
    assert(ent != "amp"@ && ent != "lt"@ && ent != "gt"@ && ent != "quot"@ && ent != "apos"@ && ent != "nbsp"@) by {
        assert("amp"@[0] != '#' && "lt"@[0] != '#' && "gt"@[0] != '#');
        assert("quot"@[0] != '#' && "apos"@[0] != '#' && "nbsp"@[0] != '#');
    }
    assert(!(ent[1] == 'x' || ent[1] == 'X'));
    assert(crate::text::parse_u32_spec(dv, 10) == Some(v));
    if ent == "#39"@ {
        assert("#39"@ =~= seq!['#', '3', '9']);
        assert(ent.subrange(1, 3) =~= seq!['3', '9']);
        assert(dv =~= seq!['3', '9']);
        assert(crate::text::digits_value(seq!['3', '9'], 10) == Some(39nat)) by {
            assert(seq!['3', '9'].drop_last() =~= seq!['3']);
            assert(crate::text::digit_value('3', 10) == Some(3nat));
            assert(crate::text::digit_value('9', 10) == Some(9nat));
            assert(crate::text::digits_value(seq!['3'], 10) == Some(3nat));
        }
        assert(v == 39);
        assert(char_from_u32_spec(v)->0 == '\'');
    }
    assert(u.subrange(e + 1, u.len() as int) =~= rest);
}

/// Decoding undoes escaping: `html_unescape(html_escape(s)) == s` for every text.
#[verifier::rlimit(40)]
pub proof fn lemma_unescape_escape(s: Seq<char>)
    ensures
        unescape_seq(escape_seq(s)) == s,
    decreases s.len(),
{
    if s.len() == 0 {
        assert(escape_seq(s) =~= Seq::<char>::empty());
    } else {
        lemma_escape_front(s);
        lemma_unescape_escape(s.drop_first());
        let c = s[0];
        let rest = escape_seq(s.drop_first());
        reveal_strlit("amp");
        reveal_strlit("lt");
        reveal_strlit("gt");
        reveal_strlit("quot");
        if c == '&' {
            let t = seq!['&', 'a', 'm', 'p', ';'];
            assert(t.subrange(1, 4) =~= "amp"@);
            lemma_unescape_reference(t, rest, '&');
        } else if c == '<' {
            let t = seq!['&', 'l', 't', ';'];
            assert(t.subrange(1, 3) =~= "lt"@);
            assert(t.subrange(1, 3) != "amp"@);
            lemma_unescape_reference(t, rest, '<');
        } else if c == '>' {
            let t = seq!['&', 'g', 't', ';'];
            assert(t.subrange(1, 3) =~= "gt"@);
            assert(t.subrange(1, 3) != "amp"@);
            assert(t.subrange(1, 3)[0] != "lt"@[0]);
            lemma_unescape_reference(t, rest, '>');
        } else if c == '"' {
            let t = seq!['&', 'q', 'u', 'o', 't', ';'];
            assert(t.subrange(1, 5) =~= "quot"@);
            assert(t.subrange(1, 5) != "amp"@);
            assert(t.subrange(1, 5).len() != "lt"@.len());
            assert(t.subrange(1, 5).len() != "gt"@.len());
            lemma_unescape_reference(t, rest, '"');
        } else {
            let u = seq![c] + rest;
            assert(u.drop_first() =~= rest);
        }
        assert(seq![c] + s.drop_first() =~= s);
    }
}

/// Escaped text holds no `<`, `>` or `"`: nothing in it can open or close a
/// tag or end an attribute value.
pub proof fn lemma_escape_has_no_markup(s: Seq<char>)
    ensures
        forall|i: int| 0 <= i < escape_seq(s).len() ==> #[trigger] escape_seq(s)[i] != '<' && escape_seq(s)[i] != '>'
            && escape_seq(s)[i] != '"',
    decreases s.len(),
{
    if s.len() > 0 {
        lemma_escape_has_no_markup(s.drop_last());
        let a = escape_seq(s.drop_last());
        let b = escape_char(s.last());
        assert forall|i: int| 0 <= i < escape_seq(s).len() implies #[trigger] escape_seq(s)[i] != '<' && escape_seq(s)[i]
            != '>' && escape_seq(s)[i] != '"' by {
            if i < a.len() {
                assert(escape_seq(s)[i] == a[i]);
            } else {
                assert(escape_seq(s)[i] == b[i - a.len()]);
            }
        }
    }
}

/// Whether `c` is one of the characters that escaping replaces.
pub open spec fn needs_escape(c: char) -> bool {
    c == '&' || c == '<' || c == '>' || c == '"'
}

/// `t` holds one of the four entities that escaping writes, starting at `i`.
pub open spec fn entity_at(t: Seq<char>, i: int) -> bool {
    ||| (0 <= i && i + 5 <= t.len() && t.subrange(i, i + 5) == seq!['&', 'a', 'm', 'p', ';'])
    ||| (0 <= i && i + 4 <= t.len() && t.subrange(i, i + 4) == seq!['&', 'l', 't', ';'])
    ||| (0 <= i && i + 4 <= t.len() && t.subrange(i, i + 4) == seq!['&', 'g', 't', ';'])
    ||| (0 <= i && i + 6 <= t.len() && t.subrange(i, i + 6) == seq!['&', 'q', 'u', 'o', 't', ';'])
}

/// Escaped text holds `&` only where one of the four entities begins: every
/// `&` of the input, and only those, became `&amp;`.
pub proof fn lemma_escape_ampersands(s: Seq<char>)
    ensures
        forall|i: int| 0 <= i < escape_seq(s).len() && #[trigger] escape_seq(s)[i] == '&' ==> entity_at(escape_seq(s), i),
    decreases s.len(),
{
    if s.len() > 0 {
        lemma_escape_ampersands(s.drop_last());
        let a = escape_seq(s.drop_last());
        let b = escape_char(s.last());
        let t = escape_seq(s);
        assert(t == a + b);
        assert forall|i: int| 0 <= i < t.len() && #[trigger] t[i] == '&' implies entity_at(t, i) by {
            if i < a.len() {
                assert(a[i] == '&');
                assert(entity_at(a, i));
                if i + 5 <= a.len() && a.subrange(i, i + 5) == seq!['&', 'a', 'm', 'p', ';'] {
                    assert(t.subrange(i, i + 5) =~= a.subrange(i, i + 5));
                } else if i + 4 <= a.len() && a.subrange(i, i + 4) == seq!['&', 'l', 't', ';'] {
                    assert(t.subrange(i, i + 4) =~= a.subrange(i, i + 4));
                } else if i + 4 <= a.len() && a.subrange(i, i + 4) == seq!['&', 'g', 't', ';'] {
                    assert(t.subrange(i, i + 4) =~= a.subrange(i, i + 4));
                } else {
                    assert(t.subrange(i, i + 6) =~= a.subrange(i, i + 6));
                }
            } else {
                let c = s.last();
                assert(t[i] == b[i - a.len()]);
                if c == '&' {
                    assert(i == a.len());
                    assert(t.subrange(i, i + 5) =~= b);
                } else if c == '<' {
                    assert(i == a.len());
                    assert(t.subrange(i, i + 4) =~= b);
                } else if c == '>' {
                    assert(i == a.len());
                    assert(t.subrange(i, i + 4) =~= b);
                } else if c == '"' {
                    assert(i == a.len());
                    assert(t.subrange(i, i + 6) =~= b);
                } else {
                    assert(b[0] == c);
                }
            }
        }
    }
}

/// Escaping leaves a text as it is exactly when it holds none of `&`, `<`,
/// `>` and `"`.
pub proof fn lemma_escape_identity(s: Seq<char>)
    ensures
        (escape_seq(s) == s) <==> (forall|i: int| 0 <= i < s.len() ==> !needs_escape(#[trigger] s[i])),
    decreases s.len(),
{
    lemma_escape_len(s);
    if s.len() == 0 {
        assert(escape_seq(s) =~= s);
    } else {
        lemma_escape_identity(s.drop_last());
        let p = s.drop_last();
        if forall|i: int| 0 <= i < s.len() ==> !needs_escape(#[trigger] s[i]) {
            assert forall|i: int| 0 <= i < p.len() implies !needs_escape(#[trigger] p[i]) by {
                assert(p[i] == s[i]);
            }
            assert(escape_char(s.last()) =~= seq![s.last()]);
            assert(p.push(s.last()) =~= s);
            assert(escape_seq(s) =~= s);
        }
        if escape_seq(s) == s {
            assert(!(exists|i: int| 0 <= i < s.len() && needs_escape(#[trigger] s[i])));
        }
    }
}

/// Escaping never shortens a text, and lengthens every text that holds one
/// of `&`, `<`, `>` and `"`.
pub proof fn lemma_escape_len(s: Seq<char>)
    ensures
        escape_seq(s).len() >= s.len(),
        (exists|i: int| 0 <= i < s.len() && needs_escape(#[trigger] s[i])) ==> escape_seq(s).len() > s.len(),
    decreases s.len(),
{
    if s.len() > 0 {
        let p = s.drop_last();
        lemma_escape_len(p);
        if exists|i: int| 0 <= i < s.len() && needs_escape(#[trigger] s[i]) {
            let i = choose|i: int| 0 <= i < s.len() && needs_escape(#[trigger] s[i]);
            if i < p.len() {
                assert(needs_escape(p[i]));
            }
        }
    }
}

} // verus!
