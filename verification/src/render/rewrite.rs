//! Left-to-right, non-overlapping rewriting of a text.
//!
//! A `Rewrite` says what replaces a match that starts at a given index (if
//! one does); `rewrite_all` scans the text once, keeping every character not
//! covered by a match — the way regex `replace_all` and `str::replace` work.

use vstd::prelude::*;
use crate::text::{chars_of, has_at, occurs_at, push_char, push_str};

verus! {

pub trait Rewrite {
    /// The match starting at `p`: its end and the text that replaces it.
    spec fn rule(&self, s: Seq<char>, p: int) -> Option<(int, Seq<char>)>;

    fn apply_at(&self, cs: &Vec<char>, p: usize) -> (r: Option<(usize, String)>)
        requires
            p < cs@.len(),
        ensures
            match r {
                Some((e, t)) => self.rule(cs@, p as int) == Some((e as int, t@)) && p < e <= cs@.len(),
                None => self.rule(cs@, p as int) is None,
            },
    ;
}

/// The text from `p` on after rewriting.
pub open spec fn rewrite_from<R: Rewrite>(r: R, s: Seq<char>, p: int) -> Seq<char>
    decreases s.len() - p,
{
    if p < 0 || p >= s.len() {
        Seq::empty()
    } else {
        match r.rule(s, p) {
            Some((e, t)) => if p < e <= s.len() {
                t + rewrite_from(r, s, e)
            } else {
                Seq::empty()
            },
            None => seq![s[p]] + rewrite_from(r, s, p + 1),
        }
    }
}

pub fn rewrite_all<R: Rewrite>(r: &R, text: &str) -> (out: String)
    ensures
        out@ == rewrite_from(*r, text@, 0),
{
    let cs = chars_of(text);
    let n = cs.len();
    let mut out = String::new();
    let mut p: usize = 0;
    while p < n
        invariant
            n == cs@.len(),
            cs@ == text@,
            p <= n,
            out@ + rewrite_from(*r, cs@, p as int) == rewrite_from(*r, cs@, 0),
        decreases n - p,
    {
        match r.apply_at(&cs, p) {
            Some((e, t)) => {
                push_str(&mut out, t.as_str());
                p = e;
            },
            None => {
                push_char(&mut out, cs[p]);
                p = p + 1;
            },
        }
    }
    assert(out@ + Seq::<char>::empty() =~= out@);
    out
}

/// `str::replace(from, to)` for a non-empty `from`, from index `p` on.
pub open spec fn replace_from(s: Seq<char>, from: Seq<char>, to: Seq<char>, p: int) -> Seq<char>
    decreases s.len() - p,
{
    if p < 0 || p >= s.len() {
        Seq::empty()
    } else if from.len() > 0 && occurs_at(s, p, from) {
        to + replace_from(s, from, to, p + from.len())
    } else {
        seq![s[p]] + replace_from(s, from, to, p + 1)
    }
}

pub open spec fn replace_spec(s: Seq<char>, from: Seq<char>, to: Seq<char>) -> Seq<char> {
    replace_from(s, from, to, 0)
}

/// Every occurrence of `from` (left to right, not overlapping) replaced by `to`.
pub fn replace_str(text: &str, from: &str, to: &str) -> (out: String)
    requires
        from@.len() > 0,
    ensures
        out@ == replace_spec(text@, from@, to@),
{
    let cs = chars_of(text);
    let fc = chars_of(from);
    let n = cs.len();
    let mut out = String::new();
    let mut p: usize = 0;
    while p < n
        invariant
            n == cs@.len(),
            cs@ == text@,
            fc@ == from@,
            fc@.len() > 0,
            p <= n,
            out@ + replace_from(cs@, from@, to@, p as int) == replace_from(cs@, from@, to@, 0),
        decreases n - p,
    {
        if has_at(&cs, p, from) {
            push_str(&mut out, to);
            p = p + fc.len();
        } else {
            push_char(&mut out, cs[p]);
            p = p + 1;
        }
    }
    assert(out@ + Seq::<char>::empty() =~= out@);
    out
}

/// Some occurrence of `p` in `s`.
pub open spec fn contains_spec(s: Seq<char>, p: Seq<char>) -> bool {
    exists|i: int| occurs_at(s, i, p)
}

/// `str::contains` for a string pattern.
pub fn contains_str(text: &str, pat: &str) -> (b: bool)
    ensures
        b == contains_spec(text@, pat@),
{
    let cs = chars_of(text);
    let pc = chars_of(pat);
    let n = cs.len();
    let mut i: usize = 0;
    while i < n
        invariant
            n == cs@.len(),
            cs@ == text@,
            pc@ == pat@,
            i <= n,
            forall|j: int| 0 <= j < i ==> !occurs_at(cs@, j, pat@),
        decreases n - i,
    {
        if has_at(&cs, i, pat) {
            return true;
        }
        i = i + 1;
    }
    if has_at(&cs, n, pat) {
        return true;
    }
    false
}

/// Removal of HTML tags: a `<`, at least `min_inner` characters other than
/// `>`, then `>` (the regex `<[^>]*>` for 0, `<[^>]+>` for 1).
pub struct TagStrip {
    pub min_inner: usize,
}

impl Rewrite for TagStrip {
    open spec fn rule(&self, s: Seq<char>, p: int) -> Option<(int, Seq<char>)> {
        if 0 <= p < s.len() && s[p] == '<' {
            match crate::text::find_char_from(s, '>', p + 1) {
                Some(q) => if q - (p + 1) >= self.min_inner {
                    Some((q + 1, Seq::empty()))
                } else {
                    None
                },
                None => None,
            }
        } else {
            None
        }
    }

    fn apply_at(&self, cs: &Vec<char>, p: usize) -> (r: Option<(usize, String)>) {
        let n = cs.len();
        if cs[p] != '<' {
            return None;
        }
        match crate::text::find_char(cs, '>', p + 1) {
            Some(q) => {
                proof { crate::text::lemma_find_char_from(cs@, '>', p + 1); }
                if q - (p + 1) >= self.min_inner {
                    Some((q + 1, String::new()))
                } else {
                    None
                }
            },
            None => None,
        }
    }
}

} // verus!
