//! Table of contents generation from heading data.
//!
//! Produces a nested `<ul>` structure and URL-friendly heading ids via
//! `slugify` (CJK characters are preserved).

use vstd::prelude::*;
use crate::text::{chars_of, push_str, string_from_chars, string_of_range};
use crate::utils::{escape_char, escape_seq, html_escape, push_escaped, push_escaped_char};
use super::math::{render_inline, render_inline_spec};

verus! {

/// One heading collected for the table of contents.
pub struct TocItem {
    pub level: u8,
    pub id: String,
    pub text: String,
}

// ---------------------------------------------------------------- slugify

pub open spec fn is_ascii_alnum(c: char) -> bool {
    ('a' <= c && c <= 'z') || ('A' <= c && c <= 'Z') || ('0' <= c && c <= '9')
}

/// Characters from U+4E00 on (the CJK range and everything beyond) are kept as they are.
pub open spec fn is_kept_wide(c: char) -> bool {
    (c as u32) >= 0x4E00
}

pub open spec fn ascii_lower(c: char) -> char {
    if 'A' <= c && c <= 'Z' {
        ((c as u32) + 32) as char
    } else {
        c
    }
}

/// The slug before a trailing `-` is dropped: letters and digits (lower-cased)
/// and wide characters are kept, every run of other characters becomes one `-`,
/// and no `-` is put at the start.
pub open spec fn slug_raw(s: Seq<char>) -> Seq<char>
    decreases s.len(),
{
    if s.len() == 0 {
        Seq::empty()
    } else {
        let r = slug_raw(s.drop_last());
        let c = s.last();
        if is_ascii_alnum(c) {
            r.push(ascii_lower(c))
        } else if is_kept_wide(c) {
            r.push(c)
        } else if r.len() > 0 && r.last() != '-' {
            r.push('-')
        } else {
            r
        }
    }
}

pub open spec fn slugify_spec(s: Seq<char>) -> Seq<char> {
    let r = slug_raw(s);
    if r.len() > 0 && r.last() == '-' {
        r.drop_last()
    } else {
        r
    }
}

pub(crate) fn lower_char(c: char) -> (r: char)
    ensures
        r == ascii_lower(c),
{
    if 'A' <= c && c <= 'Z' {
        let b: u8 = c as u8;
        ((b + 32) as u8) as char
    } else {
        c
    }
}

/// Convert heading text to a URL-friendly anchor id.
/// CJK characters are preserved as-is; other non-alphanumeric chars become `-`.
pub fn slugify(text: &str) -> (r: String)
    ensures
        r@ == slugify_spec(text@),
{
    let cs = chars_of(text);
    let mut slug: Vec<char> = Vec::new();
    let mut prev_dash = false;
    let mut i: usize = 0;
    while i < cs.len()
        invariant
            cs@ == text@,
            i <= cs@.len(),
            slug@ == slug_raw(cs@.take(i as int)),
            prev_dash == (slug@.len() > 0 && slug@.last() == '-'),
            forall|j: int| 0 <= j < slug@.len() ==> slug@[j] == '-' || is_ascii_alnum(slug@[j]) || is_kept_wide(slug@[j]),
        decreases cs@.len() - i,
    {
        let ch = cs[i];
        assert(cs@.take(i + 1).drop_last() =~= cs@.take(i as int));
        if ('a' <= ch && ch <= 'z') || ('A' <= ch && ch <= 'Z') || ('0' <= ch && ch <= '9') {
            slug.push(lower_char(ch));
            prev_dash = false;
        } else if (ch as u32) >= 0x4E00 {
            slug.push(ch);
            prev_dash = false;
        } else {
            if !prev_dash && slug.len() > 0 {
                slug.push('-');
                prev_dash = true;
            }
        }
        i = i + 1;
    }
    assert(cs@.take(cs@.len() as int) =~= cs@);
    if slug.len() > 0 && slug[slug.len() - 1] == '-' {
        slug.pop();
    }
    string_from_chars(slug.as_slice())
}

/// A text that `slugify` leaves unchanged: lower-case letters, digits, wide
/// characters and single `-` between them.
pub open spec fn is_slug(t: Seq<char>) -> bool {
    &&& forall|j: int| 0 <= j < t.len() ==> t[j] == '-' || ('a' <= t[j] && t[j] <= 'z') || ('0' <= t[j] && t[j] <= '9') || is_kept_wide(t[j])
    &&& t.len() > 0 ==> t[0] != '-' && t.last() != '-'
    &&& forall|j: int| #![trigger t[j]] 0 <= j < t.len() - 1 ==> !(t[j] == '-' && t[j + 1] == '-')
}

proof fn lemma_slug_raw_shape(s: Seq<char>)
    ensures
        forall|j: int| 0 <= j < slug_raw(s).len() ==> slug_raw(s)[j] == '-' || ('a' <= slug_raw(s)[j] && slug_raw(s)[j] <= 'z') || ('0' <= slug_raw(s)[j] && slug_raw(s)[j] <= '9') || is_kept_wide(slug_raw(s)[j]),
        slug_raw(s).len() > 0 ==> slug_raw(s)[0] != '-',
        forall|j: int| #![trigger slug_raw(s)[j]] 0 <= j < slug_raw(s).len() - 1 ==> !(slug_raw(s)[j] == '-' && slug_raw(s)[j + 1] == '-'),
    decreases s.len(),
{
    if s.len() > 0 {
        lemma_slug_raw_shape(s.drop_last());
        let c = s.last();
        if is_ascii_alnum(c) && 'A' <= c && c <= 'Z' {
            assert('a' <= ascii_lower(c) && ascii_lower(c) <= 'z');
        }
    }
}

/// Texts in slug form are fixed by `slug_raw`, prefix by prefix.
proof fn lemma_slug_raw_fixed(t: Seq<char>)
    requires
        forall|j: int| 0 <= j < t.len() ==> t[j] == '-' || ('a' <= t[j] && t[j] <= 'z') || ('0' <= t[j] && t[j] <= '9') || is_kept_wide(t[j]),
        t.len() > 0 ==> t[0] != '-',
        forall|j: int| #![trigger t[j]] 0 <= j < t.len() - 1 ==> !(t[j] == '-' && t[j + 1] == '-'),
    ensures
        slug_raw(t) == t,
    decreases t.len(),
{
    if t.len() > 0 {
        let p = t.drop_last();
        lemma_slug_raw_fixed(p);
        assert(t =~= p.push(t.last()));
        if t.last() == '-' {
            assert(t.len() >= 2);
            assert(p.last() == t[t.len() - 2]);
        }
    }
}

/// The result of `slugify` is always in slug form.
pub proof fn lemma_slugify_is_slug(s: Seq<char>)
    ensures
        is_slug(slugify_spec(s)),
{
    lemma_slug_raw_shape(s);
    let r = slug_raw(s);
    if r.len() > 0 && r.last() == '-' {
        let d = r.drop_last();
        if d.len() > 0 {
            assert(d.last() == r[r.len() - 2]);
        }
    }
}

/// Slugifying is idempotent: `slugify(slugify(s)) == slugify(s)`.
pub proof fn lemma_slugify_idempotent(s: Seq<char>)
    ensures
        slugify_spec(slugify_spec(s)) == slugify_spec(s),
{
    lemma_slugify_is_slug(s);
    let t = slugify_spec(s);
    lemma_slug_raw_fixed(t);
}

/// The ASCII letters and digits of a text, in order, lower-cased.
pub open spec fn ascii_alnum_lowered(s: Seq<char>) -> Seq<char>
    decreases s.len(),
{
    if s.len() == 0 {
        Seq::empty()
    } else if is_ascii_alnum(s.last()) {
        ascii_alnum_lowered(s.drop_last()).push(ascii_lower(s.last()))
    } else {
        ascii_alnum_lowered(s.drop_last())
    }
}

proof fn lemma_lower_alnum(c: char)
    requires
        is_ascii_alnum(c),
    ensures
        is_ascii_alnum(ascii_lower(c)),
        ascii_lower(ascii_lower(c)) == ascii_lower(c),
{
    if 'A' <= c && c <= 'Z' {
        assert('a' <= ascii_lower(c) && ascii_lower(c) <= 'z');
    }
}

proof fn lemma_slug_raw_alnum(s: Seq<char>)
    ensures
        ascii_alnum_lowered(slug_raw(s)) == ascii_alnum_lowered(s),
    decreases s.len(),
{
    if s.len() > 0 {
        let p = s.drop_last();
        let c = s.last();
        lemma_slug_raw_alnum(p);
        let r = slug_raw(p);
        if is_ascii_alnum(c) {
            lemma_lower_alnum(c);
            assert(r.push(ascii_lower(c)).drop_last() =~= r);
        } else if is_kept_wide(c) {
            assert(r.push(c).drop_last() =~= r);
        } else if r.len() > 0 && r.last() != '-' {
            assert(r.push('-').drop_last() =~= r);
        }
    }
}

/// A slug keeps the ASCII letters and digits of its text, lower-cased and in
/// their order: `slugify` drops or joins only the other characters.
pub proof fn lemma_slugify_keeps_alnum(s: Seq<char>)
    ensures
        ascii_alnum_lowered(slugify_spec(s)) == ascii_alnum_lowered(s),
{
    lemma_slug_raw_alnum(s);
    let r = slug_raw(s);
    if r.len() > 0 && r.last() == '-' {
        assert(r.drop_last().push('-') =~= r);
        assert(ascii_alnum_lowered(r) == ascii_alnum_lowered(r.drop_last()));
    }
}

// ---------------------------------------------------------------- TOC text

/// A `$...$` formula found at `p`: `(start of the formula, end of the match)`.
/// Either the `$` stands at a line start, or it follows one character that is
/// neither `\` nor `$` (that character stays in the text). The formula is at
/// least one character without `$` or a line break, closed by `$`.
pub open spec fn inline_math_at(s: Seq<char>, p: int) -> Option<(int, int)> {
    let open: int = if p < s.len() && s[p] == '$' && (p == 0 || s[p - 1] == '\n') {
        p
    } else if p + 1 < s.len() && s[p] != '\\' && s[p] != '$' && s[p + 1] == '$' {
        p + 1
    } else {
        -1
    };
    if open < 0 {
        None
    } else {
        match first_dollar_or_newline(s, open + 1) {
            Some(q) => if q >= open + 2 && s[q] == '$' {
                Some((open, q + 1))
            } else {
                None
            },
            None => None,
        }
    }
}

/// Index of the first `$` or line break at or after `i`.
pub open spec fn first_dollar_or_newline(s: Seq<char>, i: int) -> Option<int>
    decreases s.len() - i,
{
    if i < 0 || i >= s.len() {
        None
    } else if s[i] == '$' || s[i] == '\n' {
        Some(i)
    } else {
        first_dollar_or_newline(s, i + 1)
    }
}

pub proof fn lemma_first_dollar_or_newline(s: Seq<char>, i: int)
    requires
        0 <= i,
    ensures
        first_dollar_or_newline(s, i) matches Some(q) ==> i <= q < s.len(),
    decreases s.len() - i,
{
    if i < s.len() && !(s[i] == '$' || s[i] == '\n') {
        lemma_first_dollar_or_newline(s, i + 1);
    }
}

/// Heading text with its `$...$` formulas rendered and everything else escaped,
/// scanning from `p`.
pub open spec fn toc_math_text(s: Seq<char>, p: int) -> Seq<char>
    decreases s.len() - p,
{
    if p < 0 || p >= s.len() {
        Seq::empty()
    } else {
        match inline_math_at(s, p) {
            Some((open, end)) => {
                proof {
                    lemma_first_dollar_or_newline(s, open + 1);
                }
                if end > p {
                    escape_seq(s.subrange(p, open)) + render_inline_spec(s.subrange(open + 1, end - 1))
                        + toc_math_text(s, end)
                } else {
                    Seq::empty()
                }
            },
            None => escape_char(s[p]) + toc_math_text(s, p + 1),
        }
    }
}

pub open spec fn render_toc_text_spec(text: Seq<char>, render_math: bool) -> Seq<char> {
    if render_math {
        toc_math_text(text, 0)
    } else {
        escape_seq(text)
    }
}

fn first_dollar_or_newline_exec(cs: &Vec<char>, i: usize) -> (r: Option<usize>)
    ensures
        r matches Some(q) ==> first_dollar_or_newline(cs@, i as int) == Some(q as int),
        r is None ==> first_dollar_or_newline(cs@, i as int) is None,
{
    let mut k = i;
    while k < cs.len()
        invariant
            i <= k,
            first_dollar_or_newline(cs@, i as int) == first_dollar_or_newline(cs@, k as int),
        decreases cs@.len() - k,
    {
        if cs[k] == '$' || cs[k] == '\n' {
            return Some(k);
        }
        k = k + 1;
    }
    None
}

pub(crate) fn inline_math_at_exec(cs: &Vec<char>, p: usize) -> (r: Option<(usize, usize)>)
    requires
        p < cs@.len(),
    ensures
        r matches Some((o, e)) ==> inline_math_at(cs@, p as int) == Some((o as int, e as int)),
        r is None ==> inline_math_at(cs@, p as int) is None,
{
    let n = cs.len();
    let open: usize = if cs[p] == '$' && (p == 0 || cs[p - 1] == '\n') {
        p
    } else if p + 1 < n && cs[p] != '\\' && cs[p] != '$' && cs[p + 1] == '$' {
        p + 1
    } else {
        return None;
    };
    match first_dollar_or_newline_exec(cs, open + 1) {
        Some(q) => {
            proof {
                lemma_first_dollar_or_newline(cs@, open + 1);
            }
            if q >= open + 2 && cs[q] == '$' {
                Some((open, q + 1))
            } else {
                None
            }
        },
        None => None,
    }
}

/// Heading text for the TOC: escaped, with `$...$` formulas rendered when asked.
pub fn render_toc_text(text: &str, render_math: bool) -> (r: String)
    ensures
        r@ == render_toc_text_spec(text@, render_math),
{
    if !render_math {
        return html_escape(text);
    }
    let cs = chars_of(text);
    let n = cs.len();
    let mut out = String::new();
    let mut p: usize = 0;
    while p < n
        invariant
            n == cs@.len(),
            cs@ == text@,
            p <= n,
            out@ + toc_math_text(cs@, p as int) == toc_math_text(cs@, 0),
        decreases n - p,
    {
        match inline_math_at_exec(&cs, p) {
            Some((open, end)) => {
                proof {
                    lemma_first_dollar_or_newline(cs@, open + 1);
                }
                push_escaped(&mut out, &cs, p, open);
                let latex = string_of_range(&cs, open + 1, end - 1);
                let h = render_inline(latex.as_str());
                push_str(&mut out, h.as_str());
                p = end;
            },
            None => {
                push_escaped_char(&mut out, cs[p]);
                p = p + 1;
            },
        }
    }
    out
}

// ---------------------------------------------------------------- TOC

/// `n` copies of `p`.
pub open spec fn repeat_seq(p: Seq<char>, n: nat) -> Seq<char>
    decreases n,
{
    if n == 0 {
        Seq::empty()
    } else {
        repeat_seq(p, (n - 1) as nat) + p
    }
}

/// The list tags that move the nesting depth from `from` to `to`.
pub open spec fn level_moves(from: int, to: int) -> Seq<char> {
    if from < to {
        repeat_seq("<ul>\n"@, (to - from) as nat)
    } else {
        repeat_seq("</ul>\n"@, (from - to) as nat)
    }
}

/// A heading as `(level, id, text)`.
pub open spec fn toc_item_view(t: TocItem) -> (u8, Seq<char>, Seq<char>) {
    (t.level, t.id@, t.text@)
}

pub open spec fn toc_items_view(v: Seq<TocItem>) -> Seq<(u8, Seq<char>, Seq<char>)> {
    v.map_values(|t: TocItem| toc_item_view(t))
}

pub open spec fn toc_entry(item: (u8, Seq<char>, Seq<char>), render_math: bool) -> Seq<char> {
    "<li><a href=\"#"@ + item.1 + "\">"@ + render_toc_text_spec(item.2, render_math) + "</a></li>\n"@
}

/// The entries from the current depth `cur` on, closing every open list at the end.
pub open spec fn toc_list(items: Seq<(u8, Seq<char>, Seq<char>)>, cur: int, render_math: bool) -> Seq<char>
    decreases items.len(),
{
    if items.len() == 0 {
        level_moves(cur, 0)
    } else {
        level_moves(cur, items[0].0 as int) + toc_entry(items[0], render_math)
            + toc_list(items.drop_first(), items[0].0 as int, render_math)
    }
}

pub open spec fn toc_spec(items: Seq<(u8, Seq<char>, Seq<char>)>, render_math: bool) -> Seq<char> {
    if items.len() == 0 {
        Seq::empty()
    } else {
        "<nav class=\"toc\">\n<h3>目录</h3>\n<ul>\n"@ + toc_list(items, 0, render_math) + "</ul>\n</nav>"@
    }
}

/// Generate a nested HTML `<nav>` TOC from heading items.
pub fn generate_toc(items: &[TocItem], render_math: bool) -> (r: String)
    ensures
        r@ == toc_spec(toc_items_view(items@), render_math),
{
    let ghost all = toc_items_view(items@);
    let mut html = String::new();
    if items.len() == 0 {
        return html;
    }
    push_str(&mut html, "<nav class=\"toc\">\n<h3>目录</h3>\n<ul>\n");
    let ghost head = html@;
    let mut current_level: u8 = 0;
    let mut i: usize = 0;
    assert(all.subrange(0, all.len() as int) =~= all);
    while i < items.len()
        invariant
            all == toc_items_view(items@),
            i <= items@.len(),
            items@.len() > 0,
            html@ + toc_list(all.subrange(i as int, all.len() as int), current_level as int, render_math)
                == head + toc_list(all, 0, render_math),
        decreases items@.len() - i,
    {
        let item = &items[i];
        let ghost rest = all.subrange(i as int, all.len() as int);
        let ghost before = html@;
        let ghost start_level = current_level;
        if current_level < item.level {
            while current_level < item.level
                invariant
                    start_level <= current_level <= item.level,
                    html@ == before + repeat_seq("<ul>\n"@, (current_level - start_level) as nat),
                decreases item.level - current_level,
            {
                push_str(&mut html, "<ul>\n");
                current_level = current_level + 1;
            }
        } else {
            while current_level > item.level
                invariant
                    item.level <= current_level <= start_level,
                    html@ == before + repeat_seq("</ul>\n"@, (start_level - current_level) as nat),
                decreases current_level - item.level,
            {
                push_str(&mut html, "</ul>\n");
                current_level = current_level - 1;
            }
        }
        assert(html@ == before + level_moves(start_level as int, item.level as int));
        push_str(&mut html, "<li><a href=\"#");
        push_str(&mut html, item.id.as_str());
        push_str(&mut html, "\">");
        let text = render_toc_text(item.text.as_str(), render_math);
        push_str(&mut html, text.as_str());
        push_str(&mut html, "</a></li>\n");
        assert(rest[0] == toc_item_view(*item));
        assert(rest.drop_first() =~= all.subrange(i + 1, all.len() as int));
        assert(html@ =~= before + level_moves(start_level as int, item.level as int) + toc_entry(toc_item_view(*item), render_math));
        i = i + 1;
    }
    let ghost before = html@;
    let ghost start_level = current_level;
    while current_level > 0
        invariant
            current_level <= start_level,
            html@ == before + repeat_seq("</ul>\n"@, (start_level - current_level) as nat),
        decreases current_level,
    {
        push_str(&mut html, "</ul>\n");
        current_level = current_level - 1;
    }
    assert(all.subrange(all.len() as int, all.len() as int) =~= Seq::<(u8, Seq<char>, Seq<char>)>::empty());
    push_str(&mut html, "</ul>\n</nav>");
    html
}

// ---------------------------------------------------------------- TOC nesting

/// The parts of a table of contents: a list opened, a list closed, or the
/// entry of one heading `(level, id, text)`.
pub enum TocToken {
    Open,
    Close,
    Entry(u8, Seq<char>, Seq<char>),
}

pub open spec fn toc_token_text(t: TocToken, render_math: bool) -> Seq<char> {
    match t {
        TocToken::Open => "<ul>\n"@,
        TocToken::Close => "</ul>\n"@,
        TocToken::Entry(l, id, text) => toc_entry((l, id, text), render_math),
    }
}

/// The text of a sequence of parts, one after the other.
pub open spec fn toc_tokens_text(ts: Seq<TocToken>, render_math: bool) -> Seq<char>
    decreases ts.len(),
{
    if ts.len() == 0 {
        Seq::empty()
    } else {
        toc_token_text(ts[0], render_math) + toc_tokens_text(ts.drop_first(), render_math)
    }
}

pub open spec fn repeat_token(t: TocToken, n: nat) -> Seq<TocToken>
    decreases n,
{
    if n == 0 {
        Seq::empty()
    } else {
        seq![t] + repeat_token(t, (n - 1) as nat)
    }
}

pub open spec fn move_tokens(from: int, to: int) -> Seq<TocToken> {
    if from < to {
        repeat_token(TocToken::Open, (to - from) as nat)
    } else {
        repeat_token(TocToken::Close, (from - to) as nat)
    }
}

/// The parts `generate_toc` writes for `items` inside the outer list, from
/// the depth `cur` on.
pub open spec fn toc_tokens(items: Seq<(u8, Seq<char>, Seq<char>)>, cur: int) -> Seq<TocToken>
    decreases items.len(),
{
    if items.len() == 0 {
        move_tokens(cur, 0)
    } else {
        move_tokens(cur, items[0].0 as int) + seq![TocToken::Entry(items[0].0, items[0].1, items[0].2)]
            + toc_tokens(items.drop_first(), items[0].0 as int)
    }
}

/// Starting at depth `d`, no list is closed that was not opened, every entry
/// stands at the depth of its level, and every list opened is closed.
pub open spec fn well_nested(ts: Seq<TocToken>, d: int) -> bool
    decreases ts.len(),
{
    if ts.len() == 0 {
        d == 0
    } else {
        match ts[0] {
            TocToken::Open => well_nested(ts.drop_first(), d + 1),
            TocToken::Close => d > 0 && well_nested(ts.drop_first(), d - 1),
            TocToken::Entry(l, _, _) => l as int == d && well_nested(ts.drop_first(), d),
        }
    }
}

/// The entries among the parts, in order.
pub open spec fn toc_token_entries(ts: Seq<TocToken>) -> Seq<(u8, Seq<char>, Seq<char>)>
    decreases ts.len(),
{
    if ts.len() == 0 {
        Seq::empty()
    } else {
        match ts[0] {
            TocToken::Entry(l, id, text) => seq![(l, id, text)] + toc_token_entries(ts.drop_first()),
            _ => toc_token_entries(ts.drop_first()),
        }
    }
}

proof fn lemma_repeat_seq_front(p: Seq<char>, n: nat)
    requires
        n > 0,
    ensures
        repeat_seq(p, n) == p + repeat_seq(p, (n - 1) as nat),
    decreases n,
{
    if n == 1 {
        assert(repeat_seq(p, 0) =~= Seq::<char>::empty());
        assert(repeat_seq(p, 1) =~= p);
        assert(p + Seq::<char>::empty() =~= p);
    } else {
        lemma_repeat_seq_front(p, (n - 1) as nat);
        assert(repeat_seq(p, n) =~= p + repeat_seq(p, (n - 1) as nat));
    }
}

proof fn lemma_tokens_text_concat(a: Seq<TocToken>, b: Seq<TocToken>, render_math: bool)
    ensures
        toc_tokens_text(a + b, render_math) == toc_tokens_text(a, render_math) + toc_tokens_text(b, render_math),
    decreases a.len(),
{
    if a.len() == 0 {
        assert(a + b =~= b);
        assert(Seq::<char>::empty() + toc_tokens_text(b, render_math) =~= toc_tokens_text(b, render_math));
    } else {
        assert((a + b).drop_first() =~= a.drop_first() + b);
        assert((a + b)[0] == a[0]);
        lemma_tokens_text_concat(a.drop_first(), b, render_math);
        assert(toc_tokens_text(a + b, render_math) =~= toc_tokens_text(a, render_math) + toc_tokens_text(b, render_math));
    }
}

proof fn lemma_repeat_token_text(t: TocToken, n: nat, render_math: bool)
    ensures
        toc_tokens_text(repeat_token(t, n), render_math) == repeat_seq(toc_token_text(t, render_math), n),
    decreases n,
{
    if n == 0 {
        assert(toc_tokens_text(repeat_token(t, 0), render_math) =~= Seq::<char>::empty());
    } else {
        lemma_repeat_token_text(t, (n - 1) as nat, render_math);
        lemma_repeat_seq_front(toc_token_text(t, render_math), n);
        let r = repeat_token(t, n);
        assert(r[0] == t);
        assert(r.drop_first() =~= repeat_token(t, (n - 1) as nat));
    }
}

proof fn lemma_repeat_token_nested(t: TocToken, n: nat, rest: Seq<TocToken>, d: int)
    requires
        t is Open || (t is Close && d >= n),
    ensures
        well_nested(repeat_token(t, n) + rest, d) == well_nested(rest, if t is Open { d + n } else { d - n }),
        toc_token_entries(repeat_token(t, n) + rest) == toc_token_entries(rest),
    decreases n,
{
    if n == 0 {
        assert(repeat_token(t, 0) + rest =~= rest);
    } else {
        let all = repeat_token(t, n) + rest;
        assert(all[0] == t);
        assert(all.drop_first() =~= repeat_token(t, (n - 1) as nat) + rest);
        if t is Open {
            lemma_repeat_token_nested(t, (n - 1) as nat, rest, d + 1);
        } else {
            lemma_repeat_token_nested(t, (n - 1) as nat, rest, d - 1);
        }
    }
}

proof fn lemma_toc_tokens(items: Seq<(u8, Seq<char>, Seq<char>)>, cur: int, render_math: bool)
    requires
        cur >= 0,
    ensures
        toc_list(items, cur, render_math) == toc_tokens_text(toc_tokens(items, cur), render_math),
        well_nested(toc_tokens(items, cur), cur),
        toc_token_entries(toc_tokens(items, cur)) == items,
    decreases items.len(),
{
    let ts = toc_tokens(items, cur);
    if items.len() == 0 {
        if cur > 0 {
            lemma_repeat_token_text(TocToken::Close, cur as nat, render_math);
            lemma_repeat_token_nested(TocToken::Close, cur as nat, Seq::empty(), cur);
            assert(repeat_token(TocToken::Close, cur as nat) + Seq::<TocToken>::empty() =~= ts);
        } else {
            assert(ts =~= Seq::<TocToken>::empty());
            assert(toc_list(items, cur, render_math) =~= Seq::<char>::empty());
        }
    } else {
        let l = items[0].0 as int;
        let e = TocToken::Entry(items[0].0, items[0].1, items[0].2);
        let rest = toc_tokens(items.drop_first(), l);
        lemma_toc_tokens(items.drop_first(), l, render_math);
        let tail = seq![e] + rest;
        assert(tail[0] == e);
        assert(tail.drop_first() =~= rest);
        assert(ts =~= move_tokens(cur, l) + tail);
        lemma_tokens_text_concat(move_tokens(cur, l), tail, render_math);
        if cur < l {
            lemma_repeat_token_text(TocToken::Open, (l - cur) as nat, render_math);
            lemma_repeat_token_nested(TocToken::Open, (l - cur) as nat, tail, cur);
        } else {
            lemma_repeat_token_text(TocToken::Close, (cur - l) as nat, render_math);
            lemma_repeat_token_nested(TocToken::Close, (cur - l) as nat, tail, cur);
        }
        assert(toc_token_entries(tail) =~= seq![items[0]] + items.drop_first());
        assert(seq![items[0]] + items.drop_first() =~= items);
        assert(toc_tokens_text(tail, render_math) == toc_entry(items[0], render_math) + toc_tokens_text(rest, render_math));
        assert(toc_list(items, cur, render_math) =~= toc_tokens_text(ts, render_math));
    }
}

/// How many lists the parts open.
pub open spec fn open_count(ts: Seq<TocToken>) -> nat
    decreases ts.len(),
{
    if ts.len() == 0 {
        0
    } else {
        open_count(ts.drop_first()) + if ts[0] is Open { 1nat } else { 0nat }
    }
}

/// How many lists the parts close.
pub open spec fn close_count(ts: Seq<TocToken>) -> nat
    decreases ts.len(),
{
    if ts.len() == 0 {
        0
    } else {
        close_count(ts.drop_first()) + if ts[0] is Close { 1nat } else { 0nat }
    }
}

proof fn lemma_well_nested_counts(ts: Seq<TocToken>, d: int)
    requires
        well_nested(ts, d),
    ensures
        open_count(ts) + d == close_count(ts),
    decreases ts.len(),
{
    if ts.len() > 0 {
        match ts[0] {
            TocToken::Open => lemma_well_nested_counts(ts.drop_first(), d + 1),
            TocToken::Close => lemma_well_nested_counts(ts.drop_first(), d - 1),
            TocToken::Entry(..) => lemma_well_nested_counts(ts.drop_first(), d),
        }
    }
}

/// The table of contents of no heading is empty. Otherwise it is one outer
/// list holding, in order, one entry per heading, each inside as many
/// further nested lists as its level (so inside `level + 1` lists in all),
/// with as many lists closed as opened and none closed that was not opened;
/// an entry links to `#` and the heading's id, and without math its label is
/// the escaped heading text.
pub proof fn lemma_generate_toc_nesting(items: Seq<(u8, Seq<char>, Seq<char>)>, render_math: bool)
    ensures
        items.len() == 0 ==> toc_spec(items, render_math).len() == 0,
        items.len() > 0 ==> ({
            let ts = toc_tokens(items, 0);
            &&& well_nested(ts, 0)
            &&& open_count(ts) == close_count(ts)
            &&& toc_token_entries(ts) == items
            &&& toc_spec(items, render_math) == "<nav class=\"toc\">\n<h3>目录</h3>\n<ul>\n"@
                + toc_tokens_text(ts, render_math) + "</ul>\n</nav>"@
        }),
        forall|k: int| 0 <= k < items.len() ==> toc_entry(#[trigger] items[k], render_math)
            == "<li><a href=\"#"@ + items[k].1 + "\">"@ + render_toc_text_spec(items[k].2, render_math) + "</a></li>\n"@,
        !render_math ==> forall|k: int| 0 <= k < items.len() ==> render_toc_text_spec(#[trigger] items[k].2, render_math)
            == escape_seq(items[k].2),
{
    if items.len() > 0 {
        lemma_toc_tokens(items, 0, render_math);
        lemma_well_nested_counts(toc_tokens(items, 0), 0);
    }
}

} // verus!
