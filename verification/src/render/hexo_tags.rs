//! Hexo-compatible tag plugins.
//!
//! Supported tags:
//! - `{% note TYPE %}...{% endnote %}` — colored note boxes
//! - `{% note TYPE [no-icon] TEXT %}...{% endnote %}` — collapsible note with summary
//! - `{% grouppicture LAYOUT %}...{% endgrouppicture %}` — grid image layout
//! - `{% video URL %}` — embedded video player
//! - `{% pdf URL [HEIGHT] %}` — embedded PDF viewer

use vstd::prelude::*;
use crate::text::{
    chars_of, decimal, find_char, find_char_from, has_at, is_ws, is_ws_char, join_spaces,
    lemma_find_char_from, lemma_skip_ws, lemma_word_end, occurs_at, parse_usize, parse_usize_spec,
    push_char, push_decimal, push_str, skip_ws, skip_ws_exec, slice_is, split_words, string_of_range,
    trim_range, trim_seq, word_end, word_end_exec, words_from,
};
use crate::utils::{escape_seq, html_escape};

verus! {

/// A parsed hexo tag with its arguments and inner content.
pub enum HexoTag {
    Note { note_type: String, no_icon: bool, summary: Option<String>, content: String },
    GroupPicture { layout: String, content: String },
    Video { src: String },
    Pdf { url: String, height: String },
}

/// A hexo tag with its texts as character sequences.
pub enum HexoTagView {
    Note { note_type: Seq<char>, no_icon: bool, summary: Option<Seq<char>>, content: Seq<char> },
    GroupPicture { layout: Seq<char>, content: Seq<char> },
    Video { src: Seq<char> },
    Pdf { url: Seq<char>, height: Seq<char> },
}

pub open spec fn opt_view(o: Option<String>) -> Option<Seq<char>> {
    match o {
        Some(s) => Some(s@),
        None => None,
    }
}

impl View for HexoTag {
    type V = HexoTagView;

    open spec fn view(&self) -> HexoTagView {
        match self {
            HexoTag::Note { note_type, no_icon, summary, content } => HexoTagView::Note {
                note_type: note_type@,
                no_icon: *no_icon,
                summary: opt_view(*summary),
                content: content@,
            },
            HexoTag::GroupPicture { layout, content } => HexoTagView::GroupPicture { layout: layout@, content: content@ },
            HexoTag::Video { src } => HexoTagView::Video { src: src@ },
            HexoTag::Pdf { url, height } => HexoTagView::Pdf { url: url@, height: height@ },
        }
    }
}

/// Result of extracting hexo tags: the tags themselves and the markdown with
/// tags replaced by placeholders.
pub struct ExtractedTags {
    pub tags: Vec<HexoTag>,
    pub text: String,
}

// ---------------------------------------------------------------- note arguments

pub open spec fn is_note_type(w: Seq<char>) -> bool {
    w == "default"@ || w == "primary"@ || w == "info"@ || w == "success"@ || w == "warning"@ || w == "danger"@
}

/// `TYPE [no-icon] [summary text]`: the type when the first word is a known
/// note type (else `default`), `no-icon` when the next word is exactly that,
/// and the remaining words, joined with single spaces, as the summary.
pub open spec fn parse_note_args_spec(args: Seq<char>) -> (Seq<char>, bool, Option<Seq<char>>) {
    let words = words_from(args, 0);
    let i0: int = 0;
    let (note_type, i1) = if i0 < words.len() && is_note_type(words[i0]) {
        (words[i0], i0 + 1)
    } else {
        ("default"@, i0)
    };
    let (no_icon, i2) = if i1 < words.len() && words[i1] == "no-icon"@ {
        (true, i1 + 1)
    } else {
        (false, i1)
    };
    let summary = if i2 < words.len() {
        Some(join_spaces(words.subrange(i2, words.len() as int)))
    } else {
        None
    };
    (note_type, no_icon, summary)
}

fn is_note_type_at(cs: &Vec<char>, lo: usize, hi: usize) -> (b: bool)
    requires
        lo <= hi <= cs@.len(),
    ensures
        b == is_note_type(cs@.subrange(lo as int, hi as int)),
{
    slice_is(cs, lo, hi, "default") || slice_is(cs, lo, hi, "primary") || slice_is(cs, lo, hi, "info")
        || slice_is(cs, lo, hi, "success") || slice_is(cs, lo, hi, "warning") || slice_is(cs, lo, hi, "danger")
}

/// Parse note tag arguments: `TYPE [no-icon] [summary text]`.
pub fn parse_note_args(args: &str) -> (r: (String, bool, Option<String>))
    ensures
        (r.0@, r.1, opt_view(r.2)) == parse_note_args_spec(args@),
{
    let cs = chars_of(args);
    let words = split_words(&cs);
    let ghost ws = words_from(cs@, 0);
    let mut note_type = String::new();
    let mut i: usize = 0;
    if i < words.len() && is_note_type_at(&cs, words[i].0, words[i].1) {
        note_type = string_of_range(&cs, words[i].0, words[i].1);
        i = i + 1;
    } else {
        push_str(&mut note_type, "default");
    }
    let mut no_icon = false;
    if i < words.len() && slice_is(&cs, words[i].0, words[i].1, "no-icon") {
        no_icon = true;
        i = i + 1;
    }
    let summary = if i < words.len() {
        let mut out = string_of_range(&cs, words[i].0, words[i].1);
        let mut k = i + 1;
        assert(ws.subrange(i as int, k as int) =~= seq![ws[i as int]]);
        while k < words.len()
            invariant
                i < k <= words@.len(),
                words@.len() == ws.len(),
                ws == words_from(cs@, 0),
                forall|j: int| #![trigger words@[j]] 0 <= j < words@.len() ==> (words@[j].0 <= words@[j].1 && words@[j].1 <= cs@.len()
                    && cs@.subrange(words@[j].0 as int, words@[j].1 as int) == words_from(cs@, 0)[j]),
                out@ == join_spaces(ws.subrange(i as int, k as int)),
            decreases words@.len() - k,
        {
            push_char(&mut out, ' ');
            let w = words[k];
            let piece = string_of_range(&cs, w.0, w.1);
            push_str(&mut out, piece.as_str());
            assert(ws.subrange(i as int, k + 1).drop_last() =~= ws.subrange(i as int, k as int));
            k = k + 1;
        }
        Some(out)
    } else {
        None
    };
    (note_type, no_icon, summary)
}

// ---------------------------------------------------------------- rendering

/// Only `http(s)` and root-relative URLs are let through (after trimming).
pub open spec fn safe_url_spec(url: Seq<char>) -> Option<Seq<char>> {
    let t = trim_seq(url);
    if (t.len() >= 7 && t.subrange(0, 7) == "http://"@) || (t.len() >= 8 && t.subrange(0, 8) == "https://"@)
        || (t.len() >= 1 && t[0] == '/') {
        Some(t)
    } else {
        None
    }
}

/// Only allow http(s) and relative URLs. Blocks `javascript:`, `data:`, `vbscript:` etc.
pub fn safe_url(url: &str) -> (r: Option<String>)
    ensures
        opt_view(r) == safe_url_spec(url@),
{
    let cs = chars_of(url);
    let (a, b) = trim_range(&cs);
    let ghost t = cs@.subrange(a as int, b as int);
    let n = b - a;
    let ok = (n >= 7 && slice_is(&cs, a, a + 7, "http://")) || (n >= 8 && slice_is(&cs, a, a + 8, "https://"))
        || (n >= 1 && cs[a] == '/');
    assert(n >= 7 ==> t.subrange(0, 7) =~= cs@.subrange(a as int, a + 7));
    assert(n >= 8 ==> t.subrange(0, 8) =~= cs@.subrange(a as int, a + 8));
    if ok {
        Some(string_of_range(&cs, a, b))
    } else {
        None
    }
}

/// Number of columns of a group picture: the number before the first `-` of
/// the layout, or 2 when that is no number.
pub open spec fn group_columns(layout: Seq<char>) -> nat {
    let dash = crate::text::find_char_from(layout, '-', 0);
    let first = match dash {
        Some(k) => layout.subrange(0, k),
        None => layout,
    };
    match parse_usize_spec(first) {
        Some(n) => n as nat,
        None => 2,
    }
}

fn group_columns_exec(layout: &str) -> (r: usize)
    ensures
        r as nat == group_columns(layout@),
{
    let cs = chars_of(layout);
    let end = match crate::text::find_char(&cs, '-', 0) {
        Some(k) => {
            proof { crate::text::lemma_find_char_from(cs@, '-', 0); }
            k
        },
        None => cs.len(),
    };
    assert(end == cs@.len() ==> cs@.subrange(0, end as int) =~= cs@);
    match parse_usize(&cs, 0, end) {
        Some(n) => n,
        None => 2,
    }
}

pub open spec fn no_icon_class(no_icon: bool) -> Seq<char> {
    if no_icon { " no-icon"@ } else { ""@ }
}

/// The final HTML of a tag around the already rendered inner HTML.
pub open spec fn render_tag_spec(tag: HexoTagView, inner: Seq<char>) -> Seq<char> {
    match tag {
        HexoTagView::Note { note_type, no_icon, summary, .. } => match summary {
            Some(text) => "<details class=\"note note-"@ + note_type + no_icon_class(no_icon) + "\"><summary>"@
                + escape_seq(text) + "</summary>\n"@ + inner + "\n</details>"@,
            None => "<div class=\"note note-"@ + note_type + no_icon_class(no_icon) + "\">\n"@ + inner + "\n</div>"@,
        },
        HexoTagView::GroupPicture { layout, .. } => "<div class=\"group-picture\" style=\"display: grid; grid-template-columns: repeat("@
            + decimal(group_columns(layout)) + ", 1fr); gap: 4px;\">\n"@ + inner + "\n</div>"@,
        HexoTagView::Video { src } => match safe_url_spec(src) {
            Some(safe) => "<div class=\"video-container\"><video src=\""@ + safe
                + "\" preload=\"metadata\" controls playsinline></video></div>"@,
            None => "<div class=\"video-container\"><!-- blocked unsafe URL: "@ + escape_seq(src) + " --></div>"@,
        },
        HexoTagView::Pdf { url, height } => match safe_url_spec(url) {
            Some(safe) => "<div class=\"pdf-container\"><iframe src=\""@ + safe + "\" width=\"100%\" height=\""@ + height
                + "\" frameborder=\"0\"></iframe></div>"@,
            None => "<div class=\"pdf-container\"><!-- blocked unsafe URL: "@ + escape_seq(url) + " --></div>"@,
        },
    }
}

/// A note's opening tag carries the classes `note` and `note-TYPE`, and
/// `no-icon` exactly when the tag asked for no icon: a note without an icon
/// is the same HTML as with one, with ` no-icon` added to the class list
/// right after the type. A note with a summary opens a `<details>` element,
/// one without a `<div>`.
pub proof fn lemma_note_classes(
    note_type: Seq<char>,
    summary: Option<Seq<char>>,
    content: Seq<char>,
    inner: Seq<char>,
)
    ensures
        ({
            let plain = render_tag_spec(HexoTagView::Note { note_type, no_icon: false, summary, content }, inner);
            let bare = render_tag_spec(HexoTagView::Note { note_type, no_icon: true, summary, content }, inner);
            let open: Seq<char> = if summary is Some { "<details class=\"note note-"@ } else { "<div class=\"note note-"@ };
            let at: int = (open.len() + note_type.len()) as int;
            &&& plain.subrange(0, at + 2) == open + note_type + "\">"@
            &&& bare.subrange(0, at + 10) == open + note_type + " no-icon\">"@
            &&& bare == plain.subrange(0, at) + " no-icon"@ + plain.subrange(at, plain.len() as int)
        }),
{
    reveal_strlit("<details class=\"note note-");
    reveal_strlit("<div class=\"note note-");
    reveal_strlit(" no-icon");
    reveal_strlit("");
    reveal_strlit("\">");
    reveal_strlit(" no-icon\">");
    reveal_strlit("\"><summary>");
    reveal_strlit("\">\n");
    let plain = render_tag_spec(HexoTagView::Note { note_type, no_icon: false, summary, content }, inner);
    let bare = render_tag_spec(HexoTagView::Note { note_type, no_icon: true, summary, content }, inner);
    let open: Seq<char> = if summary is Some { "<details class=\"note note-"@ } else { "<div class=\"note note-"@ };
    let at: int = (open.len() + note_type.len()) as int;
    match summary {
        Some(text) => {
            let tail = "\"><summary>"@ + escape_seq(text) + "</summary>\n"@ + inner + "\n</details>"@;
            assert(plain =~= open + note_type + tail);
            assert(bare =~= open + note_type + " no-icon"@ + tail);
            assert(plain.subrange(0, at) =~= open + note_type);
            assert(plain.subrange(at, plain.len() as int) =~= tail);
            assert(plain.subrange(0, at + 2) =~= open + note_type + "\">"@);
            assert(bare.subrange(0, at + 10) =~= open + note_type + " no-icon\">"@);
        },
        None => {
            let tail = "\">\n"@ + inner + "\n</div>"@;
            assert(plain =~= open + note_type + tail);
            assert(bare =~= open + note_type + " no-icon"@ + tail);
            assert(plain.subrange(0, at) =~= open + note_type);
            assert(plain.subrange(at, plain.len() as int) =~= tail);
            assert(plain.subrange(0, at + 2) =~= open + note_type + "\">"@);
            assert(bare.subrange(0, at + 10) =~= open + note_type + " no-icon\">"@);
        },
    }
}

/// Render a hexo tag to its final HTML, with `inner_html` as the rendered content.
pub fn render_tag(tag: &HexoTag, inner_html: &str) -> (r: String)
    ensures
        r@ == render_tag_spec(tag@, inner_html@),
{
    let mut out = String::new();
    match tag {
        HexoTag::Note { note_type, no_icon, summary, .. } => {
            let nic = if *no_icon { " no-icon" } else { "" };
            match summary {
                Some(summary_text) => {
                    push_str(&mut out, "<details class=\"note note-");
                    push_str(&mut out, note_type.as_str());
                    push_str(&mut out, nic);
                    push_str(&mut out, "\"><summary>");
                    let escaped = html_escape(summary_text.as_str());
                    push_str(&mut out, escaped.as_str());
                    push_str(&mut out, "</summary>\n");
                    push_str(&mut out, inner_html);
                    push_str(&mut out, "\n</details>");
                },
                None => {
                    push_str(&mut out, "<div class=\"note note-");
                    push_str(&mut out, note_type.as_str());
                    push_str(&mut out, nic);
                    push_str(&mut out, "\">\n");
                    push_str(&mut out, inner_html);
                    push_str(&mut out, "\n</div>");
                },
            }
        },
        HexoTag::GroupPicture { layout, .. } => {
            let cols = group_columns_exec(layout.as_str());
            push_str(&mut out, "<div class=\"group-picture\" style=\"display: grid; grid-template-columns: repeat(");
            push_decimal(&mut out, cols);
            push_str(&mut out, ", 1fr); gap: 4px;\">\n");
            push_str(&mut out, inner_html);
            push_str(&mut out, "\n</div>");
        },
        HexoTag::Video { src } => {
            match safe_url(src.as_str()) {
                Some(safe) => {
                    push_str(&mut out, "<div class=\"video-container\"><video src=\"");
                    push_str(&mut out, safe.as_str());
                    push_str(&mut out, "\" preload=\"metadata\" controls playsinline></video></div>");
                },
                None => {
                    push_str(&mut out, "<div class=\"video-container\"><!-- blocked unsafe URL: ");
                    let escaped = html_escape(src.as_str());
                    push_str(&mut out, escaped.as_str());
                    push_str(&mut out, " --></div>");
                },
            }
        },
        HexoTag::Pdf { url, height } => {
            match safe_url(url.as_str()) {
                Some(safe) => {
                    push_str(&mut out, "<div class=\"pdf-container\"><iframe src=\"");
                    push_str(&mut out, safe.as_str());
                    push_str(&mut out, "\" width=\"100%\" height=\"");
                    push_str(&mut out, height.as_str());
                    push_str(&mut out, "\" frameborder=\"0\"></iframe></div>");
                },
                None => {
                    push_str(&mut out, "<div class=\"pdf-container\"><!-- blocked unsafe URL: ");
                    let escaped = html_escape(url.as_str());
                    push_str(&mut out, escaped.as_str());
                    push_str(&mut out, " --></div>");
                },
            }
        },
    }
    proof {
        reveal_strlit("");
    }
    out
}

// ---------------------------------------------------------------- tag grammar

/// Whether the regex class `\d` (Unicode decimal digits) matches `c`.
pub uninterp spec fn regex_decimal_digit(c: char) -> bool;

/// Asks the `regex` crate whether `\d` matches the character `c`
/// (`Regex::new(r"^\d$")` then `is_match` on the one-character text). The
/// class is Unicode's decimal digits; the contract names the answer and
/// states nothing of which characters those are.
#[verifier::external_body]
fn is_regex_decimal_digit(c: char) -> (b: bool)
    ensures
        b == regex_decimal_digit(c),
{
    regex::Regex::new(r"^\d$").unwrap().is_match(&c.to_string())
}

/// `\s*%\}` matches at `i`.
pub open spec fn closer_at(s: Seq<char>, i: int) -> bool {
    occurs_at(s, skip_ws(s, i), "%}"@)
}

/// First `k` in `lo..=hi` where `\s*%\}` matches.
pub open spec fn first_closer_in(s: Seq<char>, lo: int, hi: int) -> Option<int>
    decreases hi - lo + 1,
{
    if lo < 0 || lo > hi {
        None
    } else if closer_at(s, lo) {
        Some(lo)
    } else {
        first_closer_in(s, lo + 1, hi)
    }
}

/// `\{%\s*NAME` matches at `p`; the index after the name.
pub open spec fn tag_head(s: Seq<char>, p: int, name: Seq<char>) -> Option<int> {
    if occurs_at(s, p, "{%"@) {
        let q = skip_ws(s, p + 2);
        if occurs_at(s, q, name) {
            Some(q + name.len())
        } else {
            None
        }
    } else {
        None
    }
}

/// `\{%\s*NAME\s*%\}` matches at `i`; the index after it.
pub open spec fn end_tag_at(s: Seq<char>, i: int, name: Seq<char>) -> Option<int> {
    match tag_head(s, i, name) {
        Some(h) => {
            let k = skip_ws(s, h);
            if occurs_at(s, k, "%}"@) {
                Some(k + 2)
            } else {
                None
            }
        },
        None => None,
    }
}

/// The first closing tag `{% NAME %}` at or after `i`: `(start, end)`.
pub open spec fn first_end_tag(s: Seq<char>, i: int, name: Seq<char>) -> Option<(int, int)>
    decreases s.len() - i,
{
    if i < 0 || i >= s.len() {
        None
    } else {
        match end_tag_at(s, i, name) {
            Some(e) => Some((i, e)),
            None => first_end_tag(s, i + 1, name),
        }
    }
}

/// `(?s)\{%\s*note\s+(.*?)\s*%\}(.*?)\{%\s*endnote\s*%\}` at `p`: the end of the
/// match and the tag. The arguments run up to the first `\s*%}` after the
/// whitespace, the content up to the first `{% endnote %}` after that.
pub open spec fn note_at(s: Seq<char>, p: int) -> Option<(int, HexoTagView)> {
    match tag_head(s, p, "note"@) {
        Some(h) => {
            let a = skip_ws(s, h);
            if a > h {
                match first_closer_in(s, a, s.len() as int) {
                    Some(c) => {
                        let e1 = skip_ws(s, c) + 2;
                        match first_end_tag(s, e1, "endnote"@) {
                            Some((ts, te)) => {
                                let args = parse_note_args_spec(s.subrange(a, c));
                                Some((te, HexoTagView::Note {
                                    note_type: args.0,
                                    no_icon: args.1,
                                    summary: args.2,
                                    content: s.subrange(e1, ts),
                                }))
                            },
                            None => None,
                        }
                    },
                    None => None,
                }
            } else {
                None
            }
        },
        None => None,
    }
}

pub open spec fn is_layout_char(c: char) -> bool {
    regex_decimal_digit(c) || c == '-'
}

/// First index at or after `i` that is not `[\d-]` (or the end).
pub open spec fn layout_end(s: Seq<char>, i: int) -> int
    decreases s.len() - i,
{
    if i < 0 || i >= s.len() {
        i
    } else if is_layout_char(s[i]) {
        layout_end(s, i + 1)
    } else {
        i
    }
}

/// `(?s)\{%\s*grouppicture\s+([\d-]+)\s*%\}(.*?)\{%\s*endgrouppicture\s*%\}` at `p`.
pub open spec fn group_at(s: Seq<char>, p: int) -> Option<(int, HexoTagView)> {
    match tag_head(s, p, "grouppicture"@) {
        Some(h) => {
            let a = skip_ws(s, h);
            let b = layout_end(s, a);
            let k = skip_ws(s, b);
            if a > h && b > a && occurs_at(s, k, "%}"@) {
                let e1 = k + 2;
                match first_end_tag(s, e1, "endgrouppicture"@) {
                    Some((ts, te)) => Some((te, HexoTagView::GroupPicture {
                        layout: s.subrange(a, b),
                        content: s.subrange(e1, ts),
                    })),
                    None => None,
                }
            } else {
                None
            }
        },
        None => None,
    }
}

/// Index of the first line break at or after `g` (or the end).
pub open spec fn line_end(s: Seq<char>, g: int) -> int {
    match find_char_from(s, '\n', g) {
        Some(k) => k,
        None => s.len() as int,
    }
}

/// The argument of a video tag when the whitespace before it ends at `g`,
/// trying `g`, then `g - 1`, ... down to `lowest` (the greedy `\s+` giving
/// back characters): the shortest non-empty run without line breaks that is
/// followed by `\s*%}`.
pub open spec fn video_try(s: Seq<char>, g: int, lowest: int) -> Option<(int, int)>
    decreases g - lowest + 1,
{
    if g < lowest {
        None
    } else {
        match first_closer_in(s, g + 1, line_end(s, g)) {
            Some(k) => Some((g, k)),
            None => video_try(s, g - 1, lowest),
        }
    }
}

/// `\{%\s*video\s+(.+?)\s*%\}` at `p`.
pub open spec fn video_at(s: Seq<char>, p: int) -> Option<(int, HexoTagView)> {
    match tag_head(s, p, "video"@) {
        Some(h) => {
            let a = skip_ws(s, h);
            if a > h {
                match video_try(s, a, h + 1) {
                    Some((g, k)) => Some((skip_ws(s, k) + 2, HexoTagView::Video { src: s.subrange(g, k) })),
                    None => None,
                }
            } else {
                None
            }
        },
        None => None,
    }
}

/// The optional `\s+\[([^\]]+)\]` followed by `\s*%\}` at `u`: end of match and height.
pub open spec fn pdf_option(s: Seq<char>, u: int) -> Option<(int, Seq<char>)> {
    if 0 <= u < s.len() && is_ws(s[u]) {
        let v = skip_ws(s, u);
        if v < s.len() && s[v] == '[' {
            match find_char_from(s, ']', v + 1) {
                Some(r) => if r >= v + 2 && occurs_at(s, skip_ws(s, r + 1), "%}"@) {
                    Some((skip_ws(s, r + 1) + 2, s.subrange(v + 1, r)))
                } else {
                    None
                },
                None => None,
            }
        } else {
            None
        }
    } else {
        None
    }
}

/// The URL of a pdf tag ends at `u`, trying the longest `\S+` first:
/// `(url end, match end, height if given)`.
pub open spec fn pdf_try(s: Seq<char>, a: int, u: int) -> Option<(int, int, Option<Seq<char>>)>
    decreases u - a,
{
    if u <= a {
        None
    } else {
        match pdf_option(s, u) {
            Some((end, h)) => Some((u, end, Some(h))),
            None => if closer_at(s, u) {
                Some((u, skip_ws(s, u) + 2, None))
            } else {
                pdf_try(s, a, u - 1)
            },
        }
    }
}

/// `\{%\s*pdf\s+(\S+)(?:\s+\[([^\]]+)\])?\s*%\}` at `p`; the height defaults to `500px`.
pub open spec fn pdf_at(s: Seq<char>, p: int) -> Option<(int, HexoTagView)> {
    match tag_head(s, p, "pdf"@) {
        Some(h) => {
            let a = skip_ws(s, h);
            if a > h {
                match pdf_try(s, a, word_end(s, a)) {
                    Some((u, end, height)) => Some((end, HexoTagView::Pdf {
                        url: s.subrange(a, u),
                        height: match height {
                            Some(x) => x,
                            None => "500px"@,
                        },
                    })),
                    None => None,
                }
            } else {
                None
            }
        },
        None => None,
    }
}

/// The four tag kinds, extracted in this order.
pub enum TagKind {
    Note,
    GroupPicture,
    Video,
    Pdf,
}

pub open spec fn tag_at(kind: TagKind, s: Seq<char>, p: int) -> Option<(int, HexoTagView)> {
    match kind {
        TagKind::Note => note_at(s, p),
        TagKind::GroupPicture => group_at(s, p),
        TagKind::Video => video_at(s, p),
        TagKind::Pdf => pdf_at(s, p),
    }
}

/// The marker that stands for the `n`-th extracted tag.
pub open spec fn placeholder(n: nat) -> Seq<char> {
    "<<PLACEHOLDER_"@ + decimal(n) + ">>"@
}

/// One extraction pass from `p` on: leftmost matches, left to right, each
/// replaced by the placeholder of its number (counting on from `n`).
pub open spec fn extract_pass(kind: TagKind, s: Seq<char>, p: int, n: nat) -> (Seq<char>, Seq<HexoTagView>)
    decreases s.len() - p,
{
    if p < 0 || p >= s.len() {
        (Seq::empty(), Seq::empty())
    } else {
        match tag_at(kind, s, p) {
            Some((end, t)) => if p < end <= s.len() {
                let r = extract_pass(kind, s, end, n + 1);
                (placeholder(n) + r.0, seq![t] + r.1)
            } else {
                (Seq::empty(), Seq::empty())
            },
            None => {
                let r = extract_pass(kind, s, p + 1, n);
                (seq![s[p]] + r.0, r.1)
            },
        }
    }
}

/// Notes, then group pictures, then videos, then pdfs, each pass working on
/// the text the previous one left.
pub open spec fn extract_spec(md: Seq<char>) -> (Seq<char>, Seq<HexoTagView>) {
    let r1 = extract_pass(TagKind::Note, md, 0, 0);
    let r2 = extract_pass(TagKind::GroupPicture, r1.0, 0, r1.1.len());
    let r3 = extract_pass(TagKind::Video, r2.0, 0, r1.1.len() + r2.1.len());
    let r4 = extract_pass(TagKind::Pdf, r3.0, 0, r1.1.len() + r2.1.len() + r3.1.len());
    (r4.0, r1.1 + r2.1 + r3.1 + r4.1)
}

// ---------------------------------------------------------------- matching

fn closer_at_exec(cs: &Vec<char>, i: usize) -> (b: bool)
    requires
        i <= cs@.len(),
    ensures
        b == closer_at(cs@, i as int),
{
    let k = skip_ws_exec(cs, i);
    has_at(cs, k, "%}")
}

/// Index after `\s*%\}` at `i` (when it matches there).
fn closer_end(cs: &Vec<char>, i: usize) -> (e: usize)
    requires
        i <= cs@.len(),
        closer_at(cs@, i as int),
    ensures
        e as int == skip_ws(cs@, i as int) + 2,
        e <= cs@.len(),
{
    let n = cs.len();
    let k = skip_ws_exec(cs, i);
    proof {
        reveal_strlit("%}");
        lemma_skip_ws(cs@, i as int);
    }
    k + 2
}

fn first_closer_in_exec(cs: &Vec<char>, lo: usize, hi: usize) -> (r: Option<usize>)
    requires
        hi <= cs@.len(),
    ensures
        r matches Some(k) ==> first_closer_in(cs@, lo as int, hi as int) == Some(k as int) && lo <= k <= hi
            && closer_at(cs@, k as int),
        r is None ==> first_closer_in(cs@, lo as int, hi as int) is None,
{
    let n = cs.len();
    if lo > hi {
        return None;
    }
    let mut k = lo;
    loop
        invariant
            lo <= k <= hi,
            hi <= cs@.len(),
            first_closer_in(cs@, lo as int, hi as int) == first_closer_in(cs@, k as int, hi as int),
        decreases hi - k,
    {
        if closer_at_exec(cs, k) {
            return Some(k);
        }
        if k == hi {
            assert(first_closer_in(cs@, k + 1, hi as int) is None);
            assert(first_closer_in(cs@, k as int, hi as int) is None);
            return None;
        }
        k = k + 1;
    }
}

fn tag_head_exec(cs: &Vec<char>, p: usize, name: &str) -> (r: Option<usize>)
    requires
        p <= cs@.len(),
    ensures
        r matches Some(h) ==> tag_head(cs@, p as int, name@) == Some(h as int) && p + 2 <= h <= cs@.len(),
        r is None ==> tag_head(cs@, p as int, name@) is None,
{
    let n = cs.len();
    if !has_at(cs, p, "{%") {
        return None;
    }
    proof { reveal_strlit("{%"); }
    let q = skip_ws_exec(cs, p + 2);
    proof { lemma_skip_ws(cs@, p + 2); }
    if !has_at(cs, q, name) {
        return None;
    }
    let nc = chars_of(name);
    Some(q + nc.len())
}

fn end_tag_at_exec(cs: &Vec<char>, i: usize, name: &str) -> (r: Option<usize>)
    requires
        i <= cs@.len(),
    ensures
        r matches Some(e) ==> end_tag_at(cs@, i as int, name@) == Some(e as int) && i < e <= cs@.len(),
        r is None ==> end_tag_at(cs@, i as int, name@) is None,
{
    let n = cs.len();
    match tag_head_exec(cs, i, name) {
        Some(h) => {
            let k = skip_ws_exec(cs, h);
            proof { lemma_skip_ws(cs@, h as int); }
            if has_at(cs, k, "%}") {
                proof { reveal_strlit("%}"); }
                Some(k + 2)
            } else {
                None
            }
        },
        None => None,
    }
}

fn first_end_tag_exec(cs: &Vec<char>, i: usize, name: &str) -> (r: Option<(usize, usize)>)
    requires
        i <= cs@.len(),
    ensures
        r matches Some((ts, te)) ==> first_end_tag(cs@, i as int, name@) == Some((ts as int, te as int))
            && i <= ts <= te <= cs@.len(),
        r is None ==> first_end_tag(cs@, i as int, name@) is None,
{
    let mut k = i;
    while k < cs.len()
        invariant
            i <= k <= cs@.len(),
            first_end_tag(cs@, i as int, name@) == first_end_tag(cs@, k as int, name@),
        decreases cs@.len() - k,
    {
        match end_tag_at_exec(cs, k, name) {
            Some(e) => {
                proof {
                    reveal_strlit("{%");
                }
                return Some((k, e));
            },
            None => {},
        }
        k = k + 1;
    }
    None
}

fn note_at_exec(cs: &Vec<char>, p: usize) -> (r: Option<(usize, HexoTag)>)
    requires
        p <= cs@.len(),
    ensures
        r matches Some((e, t)) ==> note_at(cs@, p as int) == Some((e as int, t@)),
        r is None ==> note_at(cs@, p as int) is None,
{
    let n = cs.len();
    let h = match tag_head_exec(cs, p, "note") {
        Some(h) => h,
        None => return None,
    };
    let a = skip_ws_exec(cs, h);
    proof { lemma_skip_ws(cs@, h as int); }
    if a <= h {
        return None;
    }
    let c = match first_closer_in_exec(cs, a, cs.len()) {
        Some(c) => c,
        None => return None,
    };
    let e1 = closer_end(cs, c);
    let (ts, te) = match first_end_tag_exec(cs, e1, "endnote") {
        Some(x) => x,
        None => return None,
    };
    let args = string_of_range(cs, a, c);
    let (note_type, no_icon, summary) = parse_note_args(args.as_str());
    let content = string_of_range(cs, e1, ts);
    Some((te, HexoTag::Note { note_type, no_icon, summary, content }))
}

fn layout_end_exec(cs: &Vec<char>, i: usize) -> (r: usize)
    requires
        i <= cs@.len(),
    ensures
        r as int == layout_end(cs@, i as int),
        i <= r <= cs@.len(),
{
    let mut k = i;
    while k < cs.len() && (is_regex_decimal_digit(cs[k]) || cs[k] == '-')
        invariant
            i <= k <= cs@.len(),
            layout_end(cs@, i as int) == layout_end(cs@, k as int),
        decreases cs@.len() - k,
    {
        k = k + 1;
    }
    k
}

fn group_at_exec(cs: &Vec<char>, p: usize) -> (r: Option<(usize, HexoTag)>)
    requires
        p <= cs@.len(),
    ensures
        r matches Some((e, t)) ==> group_at(cs@, p as int) == Some((e as int, t@)),
        r is None ==> group_at(cs@, p as int) is None,
{
    let n = cs.len();
    let h = match tag_head_exec(cs, p, "grouppicture") {
        Some(h) => h,
        None => return None,
    };
    let a = skip_ws_exec(cs, h);
    proof { lemma_skip_ws(cs@, h as int); }
    let b = layout_end_exec(cs, a);
    let k = skip_ws_exec(cs, b);
    proof { lemma_skip_ws(cs@, b as int); }
    if !(a > h && b > a && has_at(cs, k, "%}")) {
        return None;
    }
    proof { reveal_strlit("%}"); }
    let e1 = k + 2;
    let (ts, te) = match first_end_tag_exec(cs, e1, "endgrouppicture") {
        Some(x) => x,
        None => return None,
    };
    let layout = string_of_range(cs, a, b);
    let content = string_of_range(cs, e1, ts);
    Some((te, HexoTag::GroupPicture { layout, content }))
}

fn line_end_exec(cs: &Vec<char>, g: usize) -> (r: usize)
    requires
        g <= cs@.len(),
    ensures
        r as int == line_end(cs@, g as int),
        r <= cs@.len(),
{
    match find_char(cs, '\n', g) {
        Some(k) => {
            proof { lemma_find_char_from(cs@, '\n', g as int); }
            k
        },
        None => cs.len(),
    }
}

fn video_at_exec(cs: &Vec<char>, p: usize) -> (r: Option<(usize, HexoTag)>)
    requires
        p <= cs@.len(),
    ensures
        r matches Some((e, t)) ==> video_at(cs@, p as int) == Some((e as int, t@)),
        r is None ==> video_at(cs@, p as int) is None,
{
    let n = cs.len();
    let h = match tag_head_exec(cs, p, "video") {
        Some(h) => h,
        None => return None,
    };
    let a = skip_ws_exec(cs, h);
    proof { lemma_skip_ws(cs@, h as int); }
    if a <= h {
        return None;
    }
    let mut g = a;
    while g > h
        invariant
            h < a <= cs@.len(),
            n == cs@.len(),
            h <= g <= a,
            tag_head(cs@, p as int, "video"@) == Some(h as int),
            a as int == skip_ws(cs@, h as int),
            video_try(cs@, a as int, h + 1) == video_try(cs@, g as int, h + 1),
        decreases g,
    {
        let le = line_end_exec(cs, g);
        let found = if g < n {
            first_closer_in_exec(cs, g + 1, le)
        } else {
            None
        };
        match found {
            Some(k) => {
                let end = closer_end(cs, k);
                let src = string_of_range(cs, g, k);
                assert(video_try(cs@, g as int, h + 1) == Some((g as int, k as int)));
                return Some((end, HexoTag::Video { src }));
            },
            None => {
                assert(first_closer_in(cs@, g + 1, line_end(cs@, g as int)) is None);
            },
        }
        g = g - 1;
    }
    None
}

fn pdf_option_exec(cs: &Vec<char>, u: usize) -> (r: Option<(usize, usize, usize)>)
    requires
        u <= cs@.len(),
    ensures
        r matches Some((end, lo, hi)) ==> lo <= hi <= cs@.len() && end <= cs@.len()
            && pdf_option(cs@, u as int) == Some((end as int, cs@.subrange(lo as int, hi as int))),
        r is None ==> pdf_option(cs@, u as int) is None,
{
    let n = cs.len();
    if !(u < cs.len() && is_ws_char(cs[u])) {
        return None;
    }
    let v = skip_ws_exec(cs, u);
    proof { lemma_skip_ws(cs@, u as int); }
    if !(v < cs.len() && cs[v] == '[') {
        return None;
    }
    match find_char(cs, ']', v + 1) {
        Some(r) => {
            proof { lemma_find_char_from(cs@, ']', v + 1); }
            let k = skip_ws_exec(cs, r + 1);
            proof { lemma_skip_ws(cs@, r + 1); }
            if r >= v + 2 && has_at(cs, k, "%}") {
                proof { reveal_strlit("%}"); }
                Some((k + 2, v + 1, r))
            } else {
                None
            }
        },
        None => None,
    }
}

fn pdf_at_exec(cs: &Vec<char>, p: usize) -> (r: Option<(usize, HexoTag)>)
    requires
        p <= cs@.len(),
    ensures
        r matches Some((e, t)) ==> pdf_at(cs@, p as int) == Some((e as int, t@)),
        r is None ==> pdf_at(cs@, p as int) is None,
{
    let n = cs.len();
    let h = match tag_head_exec(cs, p, "pdf") {
        Some(h) => h,
        None => return None,
    };
    let a = skip_ws_exec(cs, h);
    proof { lemma_skip_ws(cs@, h as int); }
    if a <= h {
        return None;
    }
    let b = word_end_exec(cs, a);
    proof { lemma_word_end(cs@, a as int); }
    let mut u = b;
    while u > a
        invariant
            a <= u <= b <= cs@.len(),
            tag_head(cs@, p as int, "pdf"@) == Some(h as int),
            a as int == skip_ws(cs@, h as int),
            a > h,
            b as int == word_end(cs@, a as int),
            pdf_try(cs@, a as int, b as int) == pdf_try(cs@, a as int, u as int),
        decreases u,
    {
        match pdf_option_exec(cs, u) {
            Some((end, lo, hi)) => {
                let url = string_of_range(cs, a, u);
                let height = string_of_range(cs, lo, hi);
                assert(pdf_try(cs@, a as int, u as int) == Some((u as int, end as int, Some(cs@.subrange(lo as int, hi as int)))));
                return Some((end, HexoTag::Pdf { url, height }));
            },
            None => {},
        }
        if closer_at_exec(cs, u) {
            let end = closer_end(cs, u);
            let url = string_of_range(cs, a, u);
            let mut height = String::new();
            push_str(&mut height, "500px");
            assert(height@ =~= "500px"@);
            assert(pdf_try(cs@, a as int, u as int) == Some((u as int, end as int, None::<Seq<char>>)));
            return Some((end, HexoTag::Pdf { url, height }));
        }
        u = u - 1;
    }
    None
}

fn tag_at_exec(kind: &TagKind, cs: &Vec<char>, p: usize) -> (r: Option<(usize, HexoTag)>)
    requires
        p <= cs@.len(),
    ensures
        r matches Some((e, t)) ==> tag_at(*kind, cs@, p as int) == Some((e as int, t@)),
        r is None ==> tag_at(*kind, cs@, p as int) is None,
{
    match kind {
        TagKind::Note => note_at_exec(cs, p),
        TagKind::GroupPicture => group_at_exec(cs, p),
        TagKind::Video => video_at_exec(cs, p),
        TagKind::Pdf => pdf_at_exec(cs, p),
    }
}

pub open spec fn tags_view(tags: Seq<HexoTag>) -> Seq<HexoTagView> {
    tags.map_values(|t: HexoTag| t@)
}

/// One extraction pass over `text`, appending the found tags to `tags`.
fn extract_pass_exec(kind: TagKind, text: &str, tags: &mut Vec<HexoTag>) -> (r: String)
    ensures
        r@ == extract_pass(kind, text@, 0, old(tags)@.len()).0,
        tags_view(final(tags)@) == tags_view(old(tags)@) + extract_pass(kind, text@, 0, old(tags)@.len()).1,
{
    let cs = chars_of(text);
    let n = cs.len();
    let ghost n0 = tags@.len();
    let ghost t0 = tags_view(tags@);
    let mut out = String::new();
    let mut p: usize = 0;
    while p < n
        invariant
            n == cs@.len(),
            cs@ == text@,
            p <= n,
            tags@.len() >= n0,
            out@ + extract_pass(kind, cs@, p as int, tags@.len()).0 == extract_pass(kind, cs@, 0, n0).0,
            tags_view(tags@) + extract_pass(kind, cs@, p as int, tags@.len()).1
                == t0 + extract_pass(kind, cs@, 0, n0).1,
        decreases n - p,
    {
        match tag_at_exec(&kind, &cs, p) {
            Some((end, tag)) => {
                if !(p < end && end <= n) {
                    assert(extract_pass(kind, cs@, p as int, tags@.len()).0 =~= Seq::<char>::empty());
                    assert(extract_pass(kind, cs@, p as int, tags@.len()).1 =~= Seq::<HexoTagView>::empty());
                    p = n;
                } else {
                    let ghost old_tags = tags@;
                    push_str(&mut out, "<<PLACEHOLDER_");
                    push_decimal(&mut out, tags.len());
                    push_str(&mut out, ">>");
                    tags.push(tag);
                    proof {
                        assert(tags_view(tags@) =~= tags_view(old_tags) + seq![tag@]);
                    }
                    p = end;
                }
            },
            None => {
                push_char(&mut out, cs[p]);
                p = p + 1;
            },
        }
    }
    proof {
        assert(out@ + Seq::<char>::empty() =~= out@);
        assert(tags_view(tags@) + Seq::<HexoTagView>::empty() =~= tags_view(tags@));
    }
    out
}

/// Extract all hexo tags from markdown, replacing them with `<<PLACEHOLDER_N>>` markers.
pub fn extract(markdown: &str) -> (r: ExtractedTags)
    ensures
        r.text@ == extract_spec(markdown@).0,
        tags_view(r.tags@) == extract_spec(markdown@).1,
{
    let mut tags: Vec<HexoTag> = Vec::new();
    assert(tags_view(tags@) =~= Seq::<HexoTagView>::empty());
    let t1 = extract_pass_exec(TagKind::Note, markdown, &mut tags);
    let t2 = extract_pass_exec(TagKind::GroupPicture, t1.as_str(), &mut tags);
    let t3 = extract_pass_exec(TagKind::Video, t2.as_str(), &mut tags);
    let t4 = extract_pass_exec(TagKind::Pdf, t3.as_str(), &mut tags);
    proof {
        let r1 = extract_pass(TagKind::Note, markdown@, 0, 0);
        let r2 = extract_pass(TagKind::GroupPicture, r1.0, 0, r1.1.len());
        let r3 = extract_pass(TagKind::Video, r2.0, 0, r1.1.len() + r2.1.len());
        assert(Seq::<HexoTagView>::empty() + r1.1 =~= r1.1);
    }
    ExtractedTags { tags, text: t4 }
}

// ---------------------------------------------------------------- nesting

/// Number of `{` in `s`. Each tag's content has fewer than the text it was
/// extracted from, which bounds how deeply tag contents are rendered.
pub open spec fn brace_count(s: Seq<char>) -> nat
    decreases s.len(),
{
    if s.len() == 0 {
        0
    } else {
        brace_count(s.drop_last()) + if s.last() == '{' { 1nat } else { 0nat }
    }
}

pub proof fn lemma_brace_count_concat(a: Seq<char>, b: Seq<char>)
    ensures
        brace_count(a + b) == brace_count(a) + brace_count(b),
    decreases b.len(),
{
    if b.len() == 0 {
        assert(a + b =~= a);
    } else {
        assert((a + b).drop_last() =~= a + b.drop_last());
        lemma_brace_count_concat(a, b.drop_last());
    }
}

pub proof fn lemma_brace_count_split(s: Seq<char>, lo: int, mid: int, hi: int)
    requires
        0 <= lo <= mid <= hi <= s.len(),
    ensures
        brace_count(s.subrange(lo, hi)) == brace_count(s.subrange(lo, mid)) + brace_count(s.subrange(mid, hi)),
{
    assert(s.subrange(lo, hi) =~= s.subrange(lo, mid) + s.subrange(mid, hi));
    lemma_brace_count_concat(s.subrange(lo, mid), s.subrange(mid, hi));
}

proof fn lemma_brace_count_single(c: char)
    ensures
        brace_count(seq![c]) == if c == '{' { 1nat } else { 0nat },
{
    assert(seq![c].drop_last() =~= Seq::<char>::empty());
    assert(brace_count(Seq::<char>::empty()) == 0);
}

proof fn lemma_decimal_no_brace(n: nat)
    ensures
        brace_count(decimal(n)) == 0,
    decreases n,
{
    if n >= 10 {
        lemma_decimal_no_brace(n / 10);
        lemma_brace_count_concat(decimal(n / 10), seq![crate::text::digit_char(n % 10)]);
        lemma_brace_count_single(crate::text::digit_char(n % 10));
    } else {
        lemma_brace_count_single(crate::text::digit_char(n));
    }
}

proof fn lemma_layout_end(s: Seq<char>, i: int)
    requires
        0 <= i <= s.len(),
    ensures
        i <= layout_end(s, i) <= s.len(),
    decreases s.len() - i,
{
    if i < s.len() && is_layout_char(s[i]) {
        lemma_layout_end(s, i + 1);
    }
}

proof fn lemma_placeholder_no_brace(n: nat)
    ensures
        brace_count(placeholder(n)) == 0,
{
    reveal_strlit("<<PLACEHOLDER_");
    reveal_strlit(">>");
    lemma_decimal_no_brace(n);
    let a = "<<PLACEHOLDER_"@;
    let b = ">>"@;
    assert(brace_count(a) == 0) by {
        reveal_with_fuel(brace_count, 15);
    }
    assert(brace_count(b) == 0) by {
        reveal_with_fuel(brace_count, 3);
    }
    lemma_brace_count_concat(a, decimal(n));
    lemma_brace_count_concat(a + decimal(n), b);
}

proof fn lemma_tag_head_bounds(s: Seq<char>, p: int, name: Seq<char>)
    requires
        tag_head(s, p, name) is Some,
    ensures
        0 <= p && s[p] == '{' && p + 2 <= tag_head(s, p, name).unwrap() <= s.len(),
{
    reveal_strlit("{%");
    assert(s.subrange(p, p + 2)[0] == s[p]);
    lemma_skip_ws(s, p + 2);
}

proof fn lemma_first_closer_in_bounds(s: Seq<char>, lo: int, hi: int)
    requires
        first_closer_in(s, lo, hi) is Some,
    ensures
        lo <= first_closer_in(s, lo, hi).unwrap() <= hi,
        closer_at(s, first_closer_in(s, lo, hi).unwrap()),
    decreases hi - lo + 1,
{
    if !closer_at(s, lo) {
        lemma_first_closer_in_bounds(s, lo + 1, hi);
    }
}

proof fn lemma_end_tag_bounds(s: Seq<char>, i: int, name: Seq<char>)
    requires
        end_tag_at(s, i, name) is Some,
    ensures
        i < end_tag_at(s, i, name).unwrap() <= s.len(),
{
    lemma_tag_head_bounds(s, i, name);
    lemma_skip_ws(s, tag_head(s, i, name).unwrap());
    reveal_strlit("%}");
}

proof fn lemma_first_end_tag_bounds(s: Seq<char>, i: int, name: Seq<char>)
    requires
        first_end_tag(s, i, name) is Some,
    ensures
        i <= first_end_tag(s, i, name).unwrap().0 < first_end_tag(s, i, name).unwrap().1 <= s.len(),
    decreases s.len() - i,
{
    if end_tag_at(s, i, name) is Some {
        lemma_end_tag_bounds(s, i, name);
    } else {
        lemma_first_end_tag_bounds(s, i + 1, name);
    }
}

/// The content of a tag.
pub open spec fn tag_content(t: HexoTagView) -> Option<Seq<char>> {
    match t {
        HexoTagView::Note { content, .. } => Some(content),
        HexoTagView::GroupPicture { content, .. } => Some(content),
        _ => None,
    }
}

/// A tag's content lies strictly after the `{` that opens the tag.
proof fn lemma_tag_at_content(kind: TagKind, s: Seq<char>, p: int)
    requires
        0 <= p < s.len(),
        tag_at(kind, s, p) matches Some((end, t)) && p < end <= s.len(),
    ensures
        tag_at(kind, s, p) matches Some((end, t)) && (tag_content(t) matches Some(c)
            ==> brace_count(c) < brace_count(s.subrange(p, end))),
{
    let (end, t) = tag_at(kind, s, p).unwrap();
    match kind {
        TagKind::Note => {
            let h = tag_head(s, p, "note"@).unwrap();
            lemma_tag_head_bounds(s, p, "note"@);
            let a = skip_ws(s, h);
            lemma_skip_ws(s, h);
            lemma_first_closer_in_bounds(s, a, s.len() as int);
            let c = first_closer_in(s, a, s.len() as int).unwrap();
            lemma_skip_ws(s, c);
            reveal_strlit("%}");
            let e1 = skip_ws(s, c) + 2;
            lemma_first_end_tag_bounds(s, e1, "endnote"@);
            let (ts, te) = first_end_tag(s, e1, "endnote"@).unwrap();
            lemma_brace_count_split(s, p, p + 1, end);
            lemma_brace_count_split(s, p + 1, e1, end);
            lemma_brace_count_split(s, e1, ts, end);
            assert(s.subrange(p, p + 1) =~= seq![s[p]]);
            lemma_brace_count_single(s[p]);
        },
        TagKind::GroupPicture => {
            let h = tag_head(s, p, "grouppicture"@).unwrap();
            lemma_tag_head_bounds(s, p, "grouppicture"@);
            reveal_strlit("%}");
            let a = skip_ws(s, h);
            lemma_skip_ws(s, h);
            let b = layout_end(s, a);
            lemma_layout_end(s, a);
            let k = skip_ws(s, b);
            lemma_skip_ws(s, b);
            let e1 = k + 2;
            lemma_first_end_tag_bounds(s, e1, "endgrouppicture"@);
            let (ts, te) = first_end_tag(s, e1, "endgrouppicture"@).unwrap();
            lemma_brace_count_split(s, p, p + 1, end);
            lemma_brace_count_split(s, p + 1, e1, end);
            lemma_brace_count_split(s, e1, ts, end);
            assert(s.subrange(p, p + 1) =~= seq![s[p]]);
            lemma_brace_count_single(s[p]);
        },
        _ => {},
    }
}

/// An extraction pass adds no `{`, and every content it finds has fewer
/// than the text the pass started from.
pub proof fn lemma_extract_pass_braces(kind: TagKind, s: Seq<char>, p: int, n: nat)
    requires
        0 <= p <= s.len(),
    ensures
        brace_count(extract_pass(kind, s, p, n).0) <= brace_count(s.subrange(p, s.len() as int)),
        forall|k: int| 0 <= k < extract_pass(kind, s, p, n).1.len() ==> (tag_content(
            #[trigger] extract_pass(kind, s, p, n).1[k],
        ) matches Some(c) ==> brace_count(c) < brace_count(s.subrange(p, s.len() as int))),
    decreases s.len() - p,
{
    if p >= s.len() {
        return;
    }
    let all = brace_count(s.subrange(p, s.len() as int));
    match tag_at(kind, s, p) {
        Some((end, t)) => {
            if p < end <= s.len() {
                lemma_extract_pass_braces(kind, s, end, n + 1);
                lemma_tag_at_content(kind, s, p);
                lemma_brace_count_split(s, p, end, s.len() as int);
                let r = extract_pass(kind, s, end, n + 1);
                lemma_placeholder_no_brace(n);
                lemma_brace_count_concat(placeholder(n), r.0);
                let tags = extract_pass(kind, s, p, n).1;
                assert(tags =~= seq![t] + r.1);
                assert forall|k: int| 0 <= k < tags.len() implies (tag_content(#[trigger] tags[k]) matches Some(c)
                    ==> brace_count(c) < all) by {
                    if k > 0 {
                        assert(tags[k] == r.1[k - 1]);
                    }
                }
            } else {
                assert(brace_count(Seq::<char>::empty()) == 0);
            }
        },
        None => {
            lemma_extract_pass_braces(kind, s, p + 1, n);
            lemma_brace_count_split(s, p, p + 1, s.len() as int);
            let r = extract_pass(kind, s, p + 1, n);
            lemma_brace_count_concat(seq![s[p]], r.0);
            assert(s.subrange(p, p + 1) =~= seq![s[p]]);
        },
    }
}

/// Every tag `extract` finds has content with fewer `{` than the markdown.
#[verifier::rlimit(60)]
pub proof fn lemma_extract_braces(md: Seq<char>)
    ensures
        forall|k: int| 0 <= k < extract_spec(md).1.len() ==> (tag_content(#[trigger] extract_spec(md).1[k]) matches Some(c)
            ==> brace_count(c) < brace_count(md)),
{
    let r1 = extract_pass(TagKind::Note, md, 0, 0);
    let r2 = extract_pass(TagKind::GroupPicture, r1.0, 0, r1.1.len());
    let r3 = extract_pass(TagKind::Video, r2.0, 0, r1.1.len() + r2.1.len());
    let r4 = extract_pass(TagKind::Pdf, r3.0, 0, r1.1.len() + r2.1.len() + r3.1.len());
    assert(md.subrange(0, md.len() as int) =~= md);
    assert(r1.0.subrange(0, r1.0.len() as int) =~= r1.0);
    assert(r2.0.subrange(0, r2.0.len() as int) =~= r2.0);
    assert(r3.0.subrange(0, r3.0.len() as int) =~= r3.0);
    lemma_extract_pass_braces(TagKind::Note, md, 0, 0);
    lemma_extract_pass_braces(TagKind::GroupPicture, r1.0, 0, r1.1.len());
    lemma_extract_pass_braces(TagKind::Video, r2.0, 0, r1.1.len() + r2.1.len());
    lemma_extract_pass_braces(TagKind::Pdf, r3.0, 0, r1.1.len() + r2.1.len() + r3.1.len());
    let all = extract_spec(md).1;
    assert(all =~= r1.1 + r2.1 + r3.1 + r4.1);
    assert forall|k: int| 0 <= k < all.len() implies (tag_content(#[trigger] all[k]) matches Some(c)
        ==> brace_count(c) < brace_count(md)) by {
        if k < r1.1.len() {
            assert(all[k] == r1.1[k]);
        } else if k < r1.1.len() + r2.1.len() {
            assert(all[k] == r2.1[k - r1.1.len()]);
        } else if k < r1.1.len() + r2.1.len() + r3.1.len() {
            assert(all[k] == r3.1[k - r1.1.len() - r2.1.len()]);
        } else {
            assert(all[k] == r4.1[k - r1.1.len() - r2.1.len() - r3.1.len()]);
        }
    }
}

proof fn lemma_extract_pass_no_tag(kind: TagKind, s: Seq<char>, p: int, n: nat)
    requires
        0 <= p <= s.len(),
        forall|i: int| 0 <= i < s.len() ==> !occurs_at(s, i, "{%"@),
    ensures
        extract_pass(kind, s, p, n) == (s.subrange(p, s.len() as int), Seq::<HexoTagView>::empty()),
    decreases s.len() - p,
{
    if p >= s.len() {
        assert(s.subrange(p, s.len() as int) =~= Seq::<char>::empty());
    } else {
        assert(!occurs_at(s, p, "{%"@));
        assert(tag_at(kind, s, p) is None);
        lemma_extract_pass_no_tag(kind, s, p + 1, n);
        assert(seq![s[p]] + s.subrange(p + 1, s.len() as int) =~= s.subrange(p, s.len() as int));
    }
}

/// A text without `{%` holds no tag: `extract` gives it back unchanged, with
/// no tags.
pub proof fn lemma_extract_without_tags(md: Seq<char>)
    requires
        forall|i: int| 0 <= i < md.len() ==> !occurs_at(md, i, "{%"@),
    ensures
        extract_spec(md).0 == md,
        extract_spec(md).1.len() == 0,
{
    assert(md.subrange(0, md.len() as int) =~= md);
    lemma_extract_pass_no_tag(TagKind::Note, md, 0, 0);
    lemma_extract_pass_no_tag(TagKind::GroupPicture, md, 0, 0);
    lemma_extract_pass_no_tag(TagKind::Video, md, 0, 0);
    lemma_extract_pass_no_tag(TagKind::Pdf, md, 0, 0);
}

proof fn lemma_closer_end(s: Seq<char>, k: int)
    requires
        0 <= k,
        closer_at(s, k),
    ensures
        k <= skip_ws(s, k),
        skip_ws(s, k) + 2 <= s.len(),
{
    reveal_strlit("%}");
    if k <= s.len() {
        lemma_skip_ws(s, k);
    }
}

proof fn lemma_video_try_bounds(s: Seq<char>, g: int, lowest: int)
    requires
        video_try(s, g, lowest) is Some,
    ensures
        lowest <= video_try(s, g, lowest).unwrap().0 <= g,
        video_try(s, g, lowest).unwrap().0 + 1 <= video_try(s, g, lowest).unwrap().1,
        closer_at(s, video_try(s, g, lowest).unwrap().1),
    decreases g - lowest + 1,
{
    if first_closer_in(s, g + 1, line_end(s, g)) is Some {
        lemma_first_closer_in_bounds(s, g + 1, line_end(s, g));
    } else {
        lemma_video_try_bounds(s, g - 1, lowest);
    }
}

proof fn lemma_pdf_try_bounds(s: Seq<char>, a: int, u: int)
    requires
        0 <= a,
        pdf_try(s, a, u) is Some,
    ensures
        a < pdf_try(s, a, u).unwrap().0 < pdf_try(s, a, u).unwrap().1 <= s.len(),
    decreases u - a,
{
    match pdf_option(s, u) {
        Some((end, h)) => {
            reveal_strlit("%}");
            let v = skip_ws(s, u);
            lemma_skip_ws(s, u);
            lemma_find_char_from(s, ']', v + 1);
            let r = find_char_from(s, ']', v + 1).unwrap();
            lemma_skip_ws(s, r + 1);
        },
        None => {
            if closer_at(s, u) {
                lemma_closer_end(s, u);
            } else {
                lemma_pdf_try_bounds(s, a, u - 1);
            }
        },
    }
}

/// A tag found at `p` ends after `p` and within the text.
proof fn lemma_tag_at_bounds(kind: TagKind, s: Seq<char>, p: int)
    requires
        0 <= p,
    ensures
        tag_at(kind, s, p) matches Some((end, t)) ==> p < end <= s.len(),
{
    if tag_at(kind, s, p) is Some {
        match kind {
            TagKind::Note => {
                lemma_tag_head_bounds(s, p, "note"@);
                let h = tag_head(s, p, "note"@).unwrap();
                let a = skip_ws(s, h);
                lemma_skip_ws(s, h);
                lemma_first_closer_in_bounds(s, a, s.len() as int);
                let c = first_closer_in(s, a, s.len() as int).unwrap();
                lemma_closer_end(s, c);
                let e1 = skip_ws(s, c) + 2;
                lemma_first_end_tag_bounds(s, e1, "endnote"@);
            },
            TagKind::GroupPicture => {
                lemma_tag_head_bounds(s, p, "grouppicture"@);
                let h = tag_head(s, p, "grouppicture"@).unwrap();
                let a = skip_ws(s, h);
                lemma_skip_ws(s, h);
                let b = layout_end(s, a);
                lemma_layout_end(s, a);
                let k = skip_ws(s, b);
                lemma_skip_ws(s, b);
                reveal_strlit("%}");
                lemma_first_end_tag_bounds(s, k + 2, "endgrouppicture"@);
            },
            TagKind::Video => {
                lemma_tag_head_bounds(s, p, "video"@);
                let h = tag_head(s, p, "video"@).unwrap();
                let a = skip_ws(s, h);
                lemma_skip_ws(s, h);
                lemma_video_try_bounds(s, a, h + 1);
                let k = video_try(s, a, h + 1).unwrap().1;
                lemma_closer_end(s, k);
            },
            TagKind::Pdf => {
                lemma_tag_head_bounds(s, p, "pdf"@);
                let h = tag_head(s, p, "pdf"@).unwrap();
                let a = skip_ws(s, h);
                lemma_skip_ws(s, h);
                lemma_pdf_try_bounds(s, a, word_end(s, a));
            },
        }
    }
}

/// The spans `(start, end)` of the matches one extraction pass replaces,
/// from `p` on.
pub open spec fn pass_spans(kind: TagKind, s: Seq<char>, p: int) -> Seq<(int, int)>
    decreases s.len() - p,
{
    if p < 0 || p >= s.len() {
        Seq::empty()
    } else {
        match tag_at(kind, s, p) {
            Some((end, t)) => if p < end <= s.len() {
                seq![(p, end)] + pass_spans(kind, s, end)
            } else {
                Seq::empty()
            },
            None => pass_spans(kind, s, p + 1),
        }
    }
}

/// The text from `p` on with the spans replaced by placeholders numbered
/// from `n`, and everything between them kept.
pub open spec fn replace_spans(s: Seq<char>, spans: Seq<(int, int)>, n: nat, p: int) -> Seq<char>
    decreases spans.len(),
{
    if spans.len() == 0 {
        s.subrange(p, s.len() as int)
    } else {
        s.subrange(p, spans[0].0) + placeholder(n) + replace_spans(s, spans.drop_first(), n + 1, spans[0].1)
    }
}

/// From `p` on, the spans are the leftmost matches, in order and without
/// overlap, each the match of the tag at the same place in `tags`; no match
/// starts between them.
pub open spec fn pass_matches(kind: TagKind, s: Seq<char>, spans: Seq<(int, int)>, tags: Seq<HexoTagView>, p: int) -> bool
    decreases spans.len(),
{
    if spans.len() == 0 {
        &&& tags.len() == 0
        &&& forall|q: int| p <= q < s.len() ==> (#[trigger] tag_at(kind, s, q)) is None
    } else {
        &&& tags.len() > 0
        &&& p <= spans[0].0 < spans[0].1 <= s.len()
        &&& tag_at(kind, s, spans[0].0) == Some((spans[0].1, tags[0]))
        &&& forall|q: int| p <= q < spans[0].0 ==> (#[trigger] tag_at(kind, s, q)) is None
        &&& pass_matches(kind, s, spans.drop_first(), tags.drop_first(), spans[0].1)
    }
}

proof fn lemma_replace_spans_front(s: Seq<char>, spans: Seq<(int, int)>, n: nat, p: int)
    requires
        0 <= p < s.len(),
        spans.len() > 0 ==> p < spans[0].0 <= s.len(),
    ensures
        replace_spans(s, spans, n, p) == seq![s[p]] + replace_spans(s, spans, n, p + 1),
{
    if spans.len() == 0 {
        assert(s.subrange(p, s.len() as int) =~= seq![s[p]] + s.subrange(p + 1, s.len() as int));
    } else {
        assert(s.subrange(p, spans[0].0) =~= seq![s[p]] + s.subrange(p + 1, spans[0].0));
        assert(replace_spans(s, spans, n, p) =~= seq![s[p]] + replace_spans(s, spans, n, p + 1));
    }
}

/// One extraction pass replaces, left to right, the leftmost matches that do
/// not overlap, each by the placeholder of its number (counting from `n`),
/// and keeps every other character; the tags it gives are those matches, in
/// order.
#[verifier::rlimit(60)]
pub proof fn lemma_extract_pass_replaces(kind: TagKind, s: Seq<char>, p: int, n: nat)
    requires
        0 <= p <= s.len(),
    ensures
        pass_matches(kind, s, pass_spans(kind, s, p), extract_pass(kind, s, p, n).1, p),
        extract_pass(kind, s, p, n).0 == replace_spans(s, pass_spans(kind, s, p), n, p),
    decreases s.len() - p,
{
    let spans = pass_spans(kind, s, p);
    let r = extract_pass(kind, s, p, n);
    if p >= s.len() {
        assert(s.subrange(p, s.len() as int) =~= Seq::<char>::empty());
    } else {
        lemma_tag_at_bounds(kind, s, p);
        match tag_at(kind, s, p) {
            Some((end, t)) => {
                lemma_extract_pass_replaces(kind, s, end, n + 1);
                let rest = pass_spans(kind, s, end);
                let rr = extract_pass(kind, s, end, n + 1);
                assert(spans.drop_first() =~= rest);
                assert(r.1.drop_first() =~= rr.1);
                assert(s.subrange(p, p) =~= Seq::<char>::empty());
                assert(r.0 =~= s.subrange(p, spans[0].0) + placeholder(n) + replace_spans(s, rest, n + 1, end));
            },
            None => {
                lemma_extract_pass_replaces(kind, s, p + 1, n);
                let rr = extract_pass(kind, s, p + 1, n);
                assert(spans == pass_spans(kind, s, p + 1));
                assert(r.1 == rr.1);
                lemma_replace_spans_front(s, spans, n, p);
            },
        }
    }
}

/// `extract` runs four passes, notes first, then group pictures, videos and
/// pdfs, each on the text the one before left: each pass replaces its
/// leftmost non-overlapping matches by placeholders numbered on from the tags
/// found before, and keeps everything else; the tags come in that order.
pub proof fn lemma_extract_in_passes(md: Seq<char>)
    ensures
        ({
            let t1 = extract_pass(TagKind::Note, md, 0, 0);
            let t2 = extract_pass(TagKind::GroupPicture, t1.0, 0, t1.1.len());
            let t3 = extract_pass(TagKind::Video, t2.0, 0, t1.1.len() + t2.1.len());
            let t4 = extract_pass(TagKind::Pdf, t3.0, 0, t1.1.len() + t2.1.len() + t3.1.len());
            &&& pass_matches(TagKind::Note, md, pass_spans(TagKind::Note, md, 0), t1.1, 0)
            &&& t1.0 == replace_spans(md, pass_spans(TagKind::Note, md, 0), 0, 0)
            &&& pass_matches(TagKind::GroupPicture, t1.0, pass_spans(TagKind::GroupPicture, t1.0, 0), t2.1, 0)
            &&& t2.0 == replace_spans(t1.0, pass_spans(TagKind::GroupPicture, t1.0, 0), t1.1.len(), 0)
            &&& pass_matches(TagKind::Video, t2.0, pass_spans(TagKind::Video, t2.0, 0), t3.1, 0)
            &&& t3.0 == replace_spans(t2.0, pass_spans(TagKind::Video, t2.0, 0), t1.1.len() + t2.1.len(), 0)
            &&& pass_matches(TagKind::Pdf, t3.0, pass_spans(TagKind::Pdf, t3.0, 0), t4.1, 0)
            &&& t4.0 == replace_spans(t3.0, pass_spans(TagKind::Pdf, t3.0, 0), t1.1.len() + t2.1.len() + t3.1.len(), 0)
            &&& extract_spec(md) == (t4.0, t1.1 + t2.1 + t3.1 + t4.1)
        }),
{
    let t1 = extract_pass(TagKind::Note, md, 0, 0);
    let t2 = extract_pass(TagKind::GroupPicture, t1.0, 0, t1.1.len());
    let t3 = extract_pass(TagKind::Video, t2.0, 0, t1.1.len() + t2.1.len());
    lemma_extract_pass_replaces(TagKind::Note, md, 0, 0);
    lemma_extract_pass_replaces(TagKind::GroupPicture, t1.0, 0, t1.1.len());
    lemma_extract_pass_replaces(TagKind::Video, t2.0, 0, t1.1.len() + t2.1.len());
    lemma_extract_pass_replaces(TagKind::Pdf, t3.0, 0, t1.1.len() + t2.1.len() + t3.1.len());
}

// ---------------------------------------------------------------- placeholders

proof fn lemma_decimal_digits(n: nat)
    ensures
        decimal(n).len() >= 1,
        n >= 10 ==> decimal(n).len() >= 2,
        forall|q: int| 0 <= q < decimal(n).len() ==> '0' <= #[trigger] decimal(n)[q] <= '9',
    decreases n,
{
    if n >= 10 {
        lemma_decimal_digits(n / 10);
        let a = decimal(n / 10);
        let d = crate::text::digit_char(n % 10);
        assert forall|q: int| 0 <= q < decimal(n).len() implies '0' <= #[trigger] decimal(n)[q] <= '9' by {
            if q < a.len() {
                assert(decimal(n)[q] == a[q]);
            } else {
                assert(decimal(n)[q] == d);
            }
        }
    }
}

proof fn lemma_decimal_injective(n: nat, m: nat)
    requires
        decimal(n) == decimal(m),
    ensures
        n == m,
    decreases n,
{
    lemma_decimal_digits(n);
    lemma_decimal_digits(m);
    if n < 10 && m < 10 {
        assert(decimal(n) == seq![crate::text::digit_char(n)]);
        assert(decimal(m) == seq![crate::text::digit_char(m)]);
        let cn = crate::text::digit_char(n);
        let cm = crate::text::digit_char(m);
        assert(seq![cn][0] == cn);
        assert(seq![cm][0] == cm);
        assert(cn == cm);
    } else if n >= 10 && m >= 10 {
        let a = decimal(n / 10);
        let b = decimal(m / 10);
        let dn = crate::text::digit_char(n % 10);
        let dm = crate::text::digit_char(m % 10);
        assert(decimal(n) == a + seq![dn]);
        assert(decimal(m) == b + seq![dm]);
        assert((a + seq![dn]).drop_last() =~= a);
        assert((b + seq![dm]).drop_last() =~= b);
        assert((a + seq![dn]).last() == dn);
        assert((b + seq![dm]).last() == dm);
        lemma_decimal_injective(n / 10, m / 10);
        assert(n % 10 == m % 10);
    } else {
        lemma_decimal_digits(n / 10);
        lemma_decimal_digits(m / 10);
    }
}

/// The shape of a placeholder: `<<` opens it and occurs nowhere else in it,
/// the number's digits stand from index 14 on, and `>>` closes it.
proof fn lemma_placeholder_shape(n: nat)
    ensures
        placeholder(n).len() == decimal(n).len() + 16,
        placeholder(n)[0] == '<' && placeholder(n)[1] == '<' && placeholder(n)[2] == 'P',
        forall|q: int| 2 <= q < placeholder(n).len() ==> #[trigger] placeholder(n)[q] != '<',
        forall|q: int| 0 <= q < decimal(n).len() ==> placeholder(n)[14 + q] == #[trigger] decimal(n)[q],
        placeholder(n)[placeholder(n).len() - 2] == '>' && placeholder(n)[placeholder(n).len() - 1] == '>',
        placeholder(n).subrange(0, 14) == "<<PLACEHOLDER_"@,
{
    reveal_strlit("<<PLACEHOLDER_");
    reveal_strlit(">>");
    lemma_decimal_digits(n);
    let p = placeholder(n);
    let d = decimal(n);
    assert(p =~= "<<PLACEHOLDER_"@ + d + ">>"@);
    assert forall|q: int| 2 <= q < p.len() implies #[trigger] p[q] != '<' by {
        if q < 14 {
            assert(p[q] == "<<PLACEHOLDER_"@[q]);
        } else if q < 14 + d.len() {
            assert(p[q] == d[q - 14]);
        } else {
            assert(p[q] == ">>"@[q - 14 - d.len()]);
        }
    }
    assert forall|q: int| 0 <= q < d.len() implies p[14 + q] == #[trigger] d[q] by {}
    assert(p.subrange(0, 14) =~= "<<PLACEHOLDER_"@);
}

/// A placeholder followed by anything starts with the placeholder of number
/// `k` exactly when it is that one.
proof fn lemma_placeholder_at_start(n: nat, k: nat, b: Seq<char>)
    ensures
        occurs_at(placeholder(n) + b, 0, placeholder(k)) <==> k == n,
{
    let u = placeholder(n) + b;
    lemma_placeholder_shape(n);
    lemma_placeholder_shape(k);
    lemma_decimal_digits(n);
    lemma_decimal_digits(k);
    let dn = decimal(n);
    let dk = decimal(k);
    if k == n {
        assert(u.subrange(0, placeholder(k).len() as int) =~= placeholder(n));
    } else if occurs_at(u, 0, placeholder(k)) {
        let pk = placeholder(k);
        assert(u.subrange(0, pk.len() as int) == pk);
        assert forall|q: int| 0 <= q < pk.len() implies u[q] == #[trigger] pk[q] by {
            assert(u.subrange(0, pk.len() as int)[q] == u[q]);
        }
        if dk.len() < dn.len() {
            let q = 14 + dk.len() as int;
            assert(pk[q] == '>');
            assert(u[q] == placeholder(n)[q]);
            assert(placeholder(n)[q] == dn[dk.len() as int]);
        } else if dk.len() > dn.len() {
            let q = 14 + dn.len() as int;
            assert(u[q] == placeholder(n)[q]);
            assert(pk[q] == dk[dn.len() as int]);
        } else {
            assert forall|q: int| 0 <= q < dk.len() implies dk[q] == dn[q] by {
                assert(pk[14 + q] == dk[q]);
                assert(u[14 + q] == placeholder(n)[14 + q]);
            }
            assert(dk =~= dn);
            lemma_decimal_injective(k, n);
        }
    }
}

/// How many times the placeholder of number `k` occurs in `t`.
pub open spec fn placeholder_count(t: Seq<char>, k: nat) -> nat
    decreases t.len(),
{
    if t.len() == 0 {
        0
    } else {
        (if occurs_at(t, 0, placeholder(k)) { 1nat } else { 0nat }) + placeholder_count(t.drop_first(), k)
    }
}

/// Past its first character, a placeholder starts no placeholder, even with
/// text after it.
proof fn lemma_placeholder_tail_count(n: nat, q: int, b: Seq<char>, k: nat)
    requires
        1 <= q <= placeholder(n).len(),
    ensures
        placeholder_count(placeholder(n).subrange(q, placeholder(n).len() as int) + b, k) == placeholder_count(b, k),
    decreases placeholder(n).len() - q,
{
    let p = placeholder(n);
    let t = p.subrange(q, p.len() as int) + b;
    if q == p.len() {
        assert(t =~= b);
    } else {
        lemma_placeholder_shape(n);
        lemma_placeholder_shape(k);
        if occurs_at(t, 0, placeholder(k)) {
            assert(t.subrange(0, placeholder(k).len() as int)[0] == t[0]);
            assert(t[0] == p[q]);
            if q == 1 {
                assert(t.subrange(0, placeholder(k).len() as int)[1] == t[1]);
                assert(t[1] == p[2]);
            }
        }
        assert(t.drop_first() =~= p.subrange(q + 1, p.len() as int) + b);
        lemma_placeholder_tail_count(n, q + 1, b, k);
    }
}

/// Counting over a placeholder followed by more text.
proof fn lemma_count_placeholder_then(n: nat, b: Seq<char>, k: nat)
    ensures
        placeholder_count(placeholder(n) + b, k) == (if k == n { 1nat } else { 0nat }) + placeholder_count(b, k),
{
    lemma_placeholder_at_start(n, k, b);
    lemma_placeholder_shape(n);
    let t = placeholder(n) + b;
    assert(t.drop_first() =~= placeholder(n).subrange(1, placeholder(n).len() as int) + b);
    lemma_placeholder_tail_count(n, 1, b, k);
}

/// Text before a placeholder counts on its own: no placeholder starts in it
/// and ends in what follows.
proof fn lemma_count_before_placeholder(a: Seq<char>, x: Seq<char>, k: nat)
    requires
        x.len() >= 2,
        x[0] == '<' && x[1] == '<',
    ensures
        placeholder_count(a + x, k) == placeholder_count(a, k) + placeholder_count(x, k),
    decreases a.len(),
{
    if a.len() == 0 {
        assert(a + x =~= x);
    } else {
        lemma_placeholder_shape(k);
        let pk = placeholder(k);
        let t = a + x;
        if a.len() < pk.len() && occurs_at(t, 0, pk) {
            let m = a.len() as int;
            assert(t.subrange(0, pk.len() as int)[m] == t[m]);
            assert(t[m] == x[0]);
            if m + 1 < pk.len() {
                assert(t.subrange(0, pk.len() as int)[m + 1] == t[m + 1]);
                assert(t[m + 1] == x[1]);
            }
        }
        if a.len() >= pk.len() {
            assert(t.subrange(0, pk.len() as int) =~= a.subrange(0, pk.len() as int));
        }
        assert(t.drop_first() =~= a.drop_first() + x);
        lemma_count_before_placeholder(a.drop_first(), x, k);
    }
}

/// How many placeholders of number `k` the text between the spans holds,
/// from `p` on.
pub open spec fn gap_count(s: Seq<char>, spans: Seq<(int, int)>, p: int, k: nat) -> nat
    decreases spans.len(),
{
    if spans.len() == 0 {
        placeholder_count(s.subrange(p, s.len() as int), k)
    } else {
        placeholder_count(s.subrange(p, spans[0].0), k) + gap_count(s, spans.drop_first(), spans[0].1, k)
    }
}

/// A text with its spans replaced holds the placeholders of the text between
/// them, and one of each number from `n` on, one per span.
proof fn lemma_replace_spans_count(s: Seq<char>, spans: Seq<(int, int)>, n: nat, p: int, k: nat)
    ensures
        placeholder_count(replace_spans(s, spans, n, p), k)
            == gap_count(s, spans, p, k) + (if n <= k < n + spans.len() { 1nat } else { 0nat }),
    decreases spans.len(),
{
    if spans.len() > 0 {
        let a = s.subrange(p, spans[0].0);
        let r = replace_spans(s, spans.drop_first(), n + 1, spans[0].1);
        lemma_replace_spans_count(s, spans.drop_first(), n + 1, spans[0].1, k);
        lemma_placeholder_shape(n);
        assert(replace_spans(s, spans, n, p) =~= a + (placeholder(n) + r));
        lemma_count_before_placeholder(a, placeholder(n) + r, k);
        lemma_count_placeholder_then(n, r, k);
    }
}

/// Counting within `s[a..c]` and `s[a..b]`, `s[b..c]` agrees where no
/// placeholder of number `k` starts before `b` and ends after it.
proof fn lemma_count_split(s: Seq<char>, a: int, b: int, c: int, k: nat)
    requires
        0 <= a <= b <= c <= s.len(),
        forall|x: int| a <= x < b && occurs_at(s, x, placeholder(k)) ==> x + placeholder(k).len() <= b,
    ensures
        placeholder_count(s.subrange(a, c), k) == placeholder_count(s.subrange(a, b), k) + placeholder_count(s.subrange(b, c), k),
    decreases b - a,
{
    let pk = placeholder(k);
    if a == b {
        assert(s.subrange(a, b).len() == 0);
    } else {
        let t = s.subrange(a, c);
        let u = s.subrange(a, b);
        assert(t.drop_first() =~= s.subrange(a + 1, c));
        assert(u.drop_first() =~= s.subrange(a + 1, b));
        if a + pk.len() <= b {
            assert(t.subrange(0, pk.len() as int) =~= s.subrange(a, a + pk.len()));
            assert(u.subrange(0, pk.len() as int) =~= s.subrange(a, a + pk.len()));
        } else if a + pk.len() <= c {
            assert(t.subrange(0, pk.len() as int) =~= s.subrange(a, a + pk.len()));
            assert(!occurs_at(s, a, pk));
        }
        lemma_count_split(s, a + 1, b, c, k);
    }
}

/// A part of `s` holds no placeholder of number `k` when none lies wholly
/// within it.
proof fn lemma_count_none(s: Seq<char>, a: int, c: int, k: nat)
    requires
        0 <= a <= c <= s.len(),
        forall|x: int| a <= x && x + placeholder(k).len() <= c ==> !occurs_at(s, x, placeholder(k)),
    ensures
        placeholder_count(s.subrange(a, c), k) == 0,
    decreases c - a,
{
    let pk = placeholder(k);
    if a < c {
        let t = s.subrange(a, c);
        assert(t.drop_first() =~= s.subrange(a + 1, c));
        if a + pk.len() <= c {
            assert(!occurs_at(s, a, placeholder(k)));
            assert(t.subrange(0, pk.len() as int) =~= s.subrange(a, a + pk.len()));
        }
        assert(!occurs_at(t, 0, pk));
        lemma_count_none(s, a + 1, c, k);
    } else {
        assert(s.subrange(a, c).len() == 0);
    }
}

/// The spans run in order from `p` on, within a text of length `len`.
pub open spec fn spans_in_order(spans: Seq<(int, int)>, p: int, len: int) -> bool
    decreases spans.len(),
{
    if spans.len() == 0 {
        p <= len
    } else {
        p <= spans[0].0 < spans[0].1 <= len && spans_in_order(spans.drop_first(), spans[0].1, len)
    }
}

/// No placeholder in `s` overlaps one of the spans.
pub open spec fn spans_clear_of_placeholders(s: Seq<char>, spans: Seq<(int, int)>) -> bool {
    forall|j: int, x: int, m: nat| 0 <= j < spans.len() && #[trigger] occurs_at(s, x, placeholder(m))
        ==> x + placeholder(m).len() <= (#[trigger] spans[j]).0 || spans[j].1 <= x
}

proof fn lemma_gap_count(s: Seq<char>, spans: Seq<(int, int)>, p: int, k: nat)
    requires
        0 <= p,
        spans_in_order(spans, p, s.len() as int),
        spans_clear_of_placeholders(s, spans),
    ensures
        gap_count(s, spans, p, k) == placeholder_count(s.subrange(p, s.len() as int), k),
    decreases spans.len(),
{
    if spans.len() > 0 {
        let st = spans[0].0;
        let en = spans[0].1;
        let n = s.len() as int;
        let pk = placeholder(k);
        lemma_placeholder_shape(k);
        assert forall|x: int| p <= x < st && occurs_at(s, x, pk) implies x + pk.len() <= st by {
            assert(x + pk.len() <= spans[0].0 || spans[0].1 <= x);
        }
        lemma_count_split(s, p, st, n, k);
        assert forall|x: int| st <= x < en && occurs_at(s, x, pk) implies x + pk.len() <= en by {
            assert(x + pk.len() <= spans[0].0 || spans[0].1 <= x);
        }
        lemma_count_split(s, st, en, n, k);
        assert forall|x: int| st <= x && x + pk.len() <= en implies !occurs_at(s, x, pk) by {
            if occurs_at(s, x, pk) {
                assert(x + pk.len() <= spans[0].0 || spans[0].1 <= x);
            }
        }
        lemma_count_none(s, st, en, k);
        assert forall|j: int, x: int, m: nat| 0 <= j < spans.drop_first().len() && #[trigger] occurs_at(s, x, placeholder(m))
            implies x + placeholder(m).len() <= (#[trigger] spans.drop_first()[j]).0 || spans.drop_first()[j].1 <= x by {
            assert(spans.drop_first()[j] == spans[j + 1]);
        }
        lemma_gap_count(s, spans.drop_first(), en, k);
    }
}

proof fn lemma_pass_matches_order(kind: TagKind, s: Seq<char>, spans: Seq<(int, int)>, tags: Seq<HexoTagView>, p: int)
    requires
        pass_matches(kind, s, spans, tags, p),
        p <= s.len(),
    ensures
        spans_in_order(spans, p, s.len() as int),
        tags.len() == spans.len(),
    decreases spans.len(),
{
    if spans.len() > 0 {
        lemma_pass_matches_order(kind, s, spans.drop_first(), tags.drop_first(), spans[0].1);
    }
}

/// One pass keeps every placeholder its text held, where none lies in a tag
/// it replaces, and adds one placeholder of each number from `n` on, one per
/// tag it finds.
proof fn lemma_extract_pass_count(kind: TagKind, s: Seq<char>, n: nat, k: nat)
    requires
        spans_clear_of_placeholders(s, pass_spans(kind, s, 0)),
    ensures
        placeholder_count(extract_pass(kind, s, 0, n).0, k) == placeholder_count(s, k)
            + (if n <= k < n + extract_pass(kind, s, 0, n).1.len() { 1nat } else { 0nat }),
{
    let spans = pass_spans(kind, s, 0);
    lemma_extract_pass_replaces(kind, s, 0, n);
    lemma_pass_matches_order(kind, s, spans, extract_pass(kind, s, 0, n).1, 0);
    lemma_replace_spans_count(s, spans, n, 0, k);
    lemma_gap_count(s, spans, 0, k);
    assert(s.subrange(0, s.len() as int) =~= s);
}

/// No tag that a later pass of `extract` finds takes in a placeholder an
/// earlier pass left: Hexo tags do not stand inside one another.
pub open spec fn tags_not_nested(md: Seq<char>) -> bool {
    let t1 = extract_pass(TagKind::Note, md, 0, 0);
    let t2 = extract_pass(TagKind::GroupPicture, t1.0, 0, t1.1.len());
    let t3 = extract_pass(TagKind::Video, t2.0, 0, t1.1.len() + t2.1.len());
    &&& spans_clear_of_placeholders(t1.0, pass_spans(TagKind::GroupPicture, t1.0, 0))
    &&& spans_clear_of_placeholders(t2.0, pass_spans(TagKind::Video, t2.0, 0))
    &&& spans_clear_of_placeholders(t3.0, pass_spans(TagKind::Pdf, t3.0, 0))
}

/// Where the markdown holds no `<<PLACEHOLDER_` of its own and no tag stands
/// inside another, the text `extract` gives holds the placeholder of each
/// tag's number exactly once, and no other placeholder.
pub proof fn lemma_extract_placeholders_once(md: Seq<char>)
    requires
        forall|x: int| 0 <= x < md.len() ==> !occurs_at(md, x, "<<PLACEHOLDER_"@),
        tags_not_nested(md),
    ensures
        forall|k: nat| placeholder_count(extract_spec(md).0, k) == if k < extract_spec(md).1.len() { 1nat } else { 0nat },
{
    let t1 = extract_pass(TagKind::Note, md, 0, 0);
    let t2 = extract_pass(TagKind::GroupPicture, t1.0, 0, t1.1.len());
    let t3 = extract_pass(TagKind::Video, t2.0, 0, t1.1.len() + t2.1.len());
    let t4 = extract_pass(TagKind::Pdf, t3.0, 0, t1.1.len() + t2.1.len() + t3.1.len());
    assert forall|x: int, m: nat| #[trigger] occurs_at(md, x, placeholder(m)) implies false by {
        lemma_placeholder_shape(m);
        reveal_strlit("<<PLACEHOLDER_");
        assert(md.subrange(x, x + 14) =~= md.subrange(x, x + placeholder(m).len()).subrange(0, 14));
        assert(occurs_at(md, x, "<<PLACEHOLDER_"@));
    }
    assert forall|k: nat| placeholder_count(extract_spec(md).0, k) == if k < extract_spec(md).1.len() { 1nat } else { 0nat } by {
        lemma_count_none(md, 0, md.len() as int, k);
        assert(md.subrange(0, md.len() as int) =~= md);
        lemma_extract_pass_count(TagKind::Note, md, 0, k);
        lemma_extract_pass_count(TagKind::GroupPicture, t1.0, t1.1.len(), k);
        lemma_extract_pass_count(TagKind::Video, t2.0, t1.1.len() + t2.1.len(), k);
        lemma_extract_pass_count(TagKind::Pdf, t3.0, t1.1.len() + t2.1.len() + t3.1.len(), k);
    }
}

} // verus!
