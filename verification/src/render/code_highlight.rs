//! Syntax highlighting of code blocks via syntect.
//!
//! Renders code blocks with per-line highlighting, aligned line numbers, a
//! copy button and a wrap toggle. The fence info string can carry a title:
//! ` ```python hello.py ` renders a "hello.py" title bar. The theme falls back
//! to `InspiredGitHub` when the configured name is unknown.

use vstd::prelude::*;
use crate::text::{
    chars_of, decimal, find_char, find_char_from, lemma_find_char_from, lemma_word_end, push_decimal,
    push_str, string_of_range, trim_range, trim_seq, word_end, word_end_exec,
};
use crate::utils::{escape_seq, html_escape};
use syntect::html::{append_highlighted_html_for_styled_line, IncludeBackground};

verus! {

/// Whether syntect's default theme set has a theme of this name.
pub uninterp spec fn syntect_has_theme(name: Seq<char>) -> bool;

/// The HTML syntect produces for each line, highlighting the lines in order
/// with one highlighter (for the syntax it finds for the token: by token,
/// else by extension, else plain text) and the named theme; `None` for a
/// line it fails on.
pub uninterp spec fn syntect_lines(lines: Seq<Seq<char>>, language: Seq<char>, theme: Seq<char>) -> Seq<Option<Seq<char>>>;

/// The stylesheet syntect generates for a theme (spaced class names); empty on error.
pub uninterp spec fn syntect_css(theme: Seq<char>) -> Seq<char>;

/// Looks the name up in syntect's `ThemeSet::load_defaults()`, whose
/// documented default themes include `InspiredGitHub`.
#[verifier::external_body]
fn has_theme(name: &str) -> (b: bool)
    ensures
        b == syntect_has_theme(name@),
        name@ == "InspiredGitHub"@ ==> b,
{
    syntect::highlighting::ThemeSet::load_defaults().themes.contains_key(name)
}

pub open spec fn lines_view(v: Seq<String>) -> Seq<Seq<char>> {
    v.map_values(|s: String| s@)
}

/// Highlights lines with syntect: `SyntaxSet::load_defaults_newlines`, the
/// syntax for the token (`find_syntax_by_token`, then
/// `find_syntax_by_extension`, then plain text), one `HighlightLines` for all
/// lines, and `append_highlighted_html_for_styled_line` without background.
/// Only the name of the result is stated, and that there is one entry per line.
#[verifier::external_body]
fn highlight_lines(lines: &Vec<String>, language: &str, theme: &str) -> (r: Vec<Option<String>>)
    requires
        syntect_has_theme(theme@),
    ensures
        crate::render::wechat::opts_view(r@) == syntect_lines(lines_view(lines@), language@, theme@),
        r@.len() == lines@.len(),
{
    let ss = syntect::parsing::SyntaxSet::load_defaults_newlines();
    let ts = syntect::highlighting::ThemeSet::load_defaults();
    let syntax = ss.find_syntax_by_token(language).or_else(|| ss.find_syntax_by_extension(language))
        .unwrap_or_else(|| ss.find_syntax_plain_text());
    let mut h = syntect::easy::HighlightLines::new(syntax, &ts.themes[theme]);
    lines.iter().map(|l| h.highlight_line(l, &ss).ok().map(|regions| {
        let mut s = String::new();
        let _ = append_highlighted_html_for_styled_line(&regions, IncludeBackground::No, &mut s);
        s
    })).collect()
}

/// Calls `css_for_theme_with_class_style` with `ClassStyle::Spaced` (an
/// error gives the empty text); only the name of the result is stated.
#[verifier::external_body]
fn theme_css(theme: &str) -> (r: String)
    requires
        syntect_has_theme(theme@),
    ensures
        r@ == syntect_css(theme@),
{
    let ts = syntect::highlighting::ThemeSet::load_defaults();
    syntect::html::css_for_theme_with_class_style(&ts.themes[theme], syntect::html::ClassStyle::Spaced)
        .unwrap_or_default()
}

/// The theme used for a configured name.
pub open spec fn theme_choice(name: Seq<char>) -> Seq<char> {
    if syntect_has_theme(name) { name } else { "InspiredGitHub"@ }
}

/// The theme used for a configured name: the name itself when syntect knows
/// it, else `InspiredGitHub` (which syntect's default set has).
pub fn choose_theme(name: &str) -> (r: String)
    ensures
        r@ == theme_choice(name@),
        syntect_has_theme(r@),
{
    let mut out = String::new();
    if has_theme(name) {
        push_str(&mut out, name);
    } else {
        let _ = has_theme("InspiredGitHub");
        push_str(&mut out, "InspiredGitHub");
    }
    assert(out@ =~= theme_choice(name@));
    out
}

/// `(language, title)` of a fence info string: after trimming, the first
/// whitespace-separated word is the language (`text` when empty) and the rest
/// after the following whitespace character, trimmed, is the title.
pub open spec fn parse_fence_info_spec(info: Seq<char>) -> (Seq<char>, Option<Seq<char>>) {
    let t = trim_seq(info);
    if t.len() == 0 {
        ("text"@, None)
    } else {
        let k = word_end(t, 0);
        let title = if k < t.len() {
            let r = trim_seq(t.subrange(k + 1, t.len() as int));
            if r.len() > 0 { Some(r) } else { None }
        } else {
            None
        };
        (t.subrange(0, k), title)
    }
}

/// Parse fence info into `(language, optional_title)`:
/// `"python quine.py"` → `("python", Some("quine.py"))`.
pub fn parse_fence_info(info: &str) -> (r: (String, Option<String>))
    ensures
        (r.0@, crate::render::wechat::opt_seq_view(r.1)) == parse_fence_info_spec(info@),
{
    let ic = chars_of(info);
    let (a, b) = trim_range(&ic);
    let mut lang = String::new();
    if a >= b {
        push_str(&mut lang, "text");
        return (lang, None);
    }
    let t = string_of_range(&ic, a, b);
    let tc = chars_of(t.as_str());
    let k = word_end_exec(&tc, 0);
    proof { lemma_word_end(tc@, 0); }
    let language = string_of_range(&tc, 0, k);
    let title = if k < tc.len() {
        let rest = string_of_range(&tc, k + 1, tc.len());
        let rc = chars_of(rest.as_str());
        let (ra, rb) = trim_range(&rc);
        if ra < rb {
            Some(string_of_range(&rc, ra, rb))
        } else {
            assert(rc@.subrange(ra as int, rb as int).len() == 0);
            None
        }
    } else {
        None
    };
    (language, title)
}

/// syntect's `LinesWithEndings`: the lines of a text, each with its `\n`.
pub open spec fn lines_with_endings(s: Seq<char>) -> Seq<Seq<char>>
    decreases s.len(),
{
    if s.len() == 0 {
        Seq::empty()
    } else {
        match find_char_from(s, '\n', 0) {
            Some(k) => {
                proof { lemma_find_char_from(s, '\n', 0); }
                seq![s.subrange(0, k + 1)] + lines_with_endings(s.subrange(k + 1, s.len() as int))
            },
            None => seq![s],
        }
    }
}

fn split_lines_with_endings(code: &str) -> (r: Vec<String>)
    ensures
        lines_view(r@) == lines_with_endings(code@),
{
    let cs = chars_of(code);
    let n = cs.len();
    let mut out: Vec<String> = Vec::new();
    let mut i: usize = 0;
    assert(cs@.subrange(0, n as int) =~= cs@);
    while i < n
        invariant
            n == cs@.len(),
            cs@ == code@,
            i <= n,
            lines_view(out@) + lines_with_endings(cs@.subrange(i as int, n as int)) == lines_with_endings(cs@),
        decreases n - i,
    {
        let ghost t = cs@.subrange(i as int, n as int);
        proof { crate::text::lemma_find_shift(cs@, '\n', i as int, i as int); }
        let ghost before = out@;
        match find_char(&cs, '\n', i) {
            Some(k) => {
                proof { lemma_find_char_from(cs@, '\n', i as int); }
                out.push(string_of_range(&cs, i, k + 1));
                assert(t.subrange(0, k - i + 1) =~= cs@.subrange(i as int, k + 1));
                assert(t.subrange(k - i + 1, t.len() as int) =~= cs@.subrange(k + 1, n as int));
                assert(lines_view(out@) =~= lines_view(before).push(cs@.subrange(i as int, k + 1)));
                i = k + 1;
            },
            None => {
                out.push(string_of_range(&cs, i, n));
                assert(lines_view(out@) =~= lines_view(before).push(t));
                assert(cs@.subrange(n as int, n as int) =~= Seq::<char>::empty());
                i = n;
            },
        }
    }
    assert(cs@.subrange(n as int, n as int) =~= Seq::<char>::empty());
    out
}

/// `num` right-aligned in a field of `width` characters.
pub open spec fn right_align(num: nat, width: nat) -> Seq<char> {
    let d = decimal(num);
    if d.len() >= width { d } else { Seq::new((width - d.len()) as nat, |i: int| ' ') + d }
}

/// The numbered line spans from line `i` on.
pub open spec fn code_lines_html(lines: Seq<Seq<char>>, hl: Seq<Option<Seq<char>>>, i: int, width: nat) -> Seq<char>
    decreases lines.len() - i,
{
    if i < 0 || i >= lines.len() {
        Seq::empty()
    } else {
        let body = match (if i < hl.len() { hl[i] } else { None }) {
            Some(h) => h,
            None => escape_seq(lines[i]),
        };
        "<span class=\"cl\"><span class=\"ln\">"@ + right_align((i + 1) as nat, width) + "</span>"@ + body + "</span>"@
            + code_lines_html(lines, hl, i + 1, width)
    }
}

pub open spec fn code_header_right() -> Seq<char> {
    "<span class=\"code-actions\"><button class=\"code-wrap\" onclick=\"toggleWrap(this)\" title=\"切换自动换行\">换行</button><button class=\"code-copy\" onclick=\"copyCode(this)\" title=\"复制代码\">复制</button></span>"@
}

/// The highlighted code block: title bar (title, else language), then the
/// numbered lines, each highlighted by syntect or, where it fails, escaped.
pub open spec fn highlight_spec(code: Seq<char>, info: Seq<char>, theme_name: Seq<char>) -> Seq<char> {
    let (language, title) = parse_fence_info_spec(info);
    let lines = lines_with_endings(code);
    let width = decimal(lines.len()).len();
    let hl = syntect_lines(lines, language, theme_choice(theme_name));
    let title_bar = match title {
        Some(t) => "<div class=\"code-header\"><span class=\"code-title\">"@ + t + "</span>"@ + code_header_right() + "</div>"@,
        None => "<div class=\"code-header\"><span class=\"code-lang\">"@ + language + "</span>"@ + code_header_right() + "</div>"@,
    };
    "<div class=\"code-block\" data-lang=\""@ + language + "\">"@ + title_bar + "<pre class=\"highlight\"><code>"@
        + code_lines_html(lines, hl, 0, width) + "</code></pre></div>"@
}

fn push_right_aligned(out: &mut String, num: usize, width: usize)
    ensures
        final(out)@ == old(out)@ + right_align(num as nat, width as nat),
{
    let mut d = String::new();
    push_decimal(&mut d, num);
    let len = chars_of(d.as_str()).len();
    let ghost start = out@;
    if len < width {
        let mut k = len;
        while k < width
            invariant
                len <= k <= width,
                out@ == start + Seq::new((k - len) as nat, |i: int| ' '),
            decreases width - k,
        {
            crate::text::push_char(out, ' ');
            assert(Seq::new((k + 1 - len) as nat, |i: int| ' ') =~= Seq::new((k - len) as nat, |i: int| ' ').push(' '));
            k = k + 1;
        }
    }
    push_str(out, d.as_str());
    assert(len >= width ==> out@ =~= start + decimal(num as nat));
}

/// Highlight code with line numbers, optional title, copy button, and wrap toggle.
///
/// `info` is the fence info string, e.g. `"python quine.py"` → language `python`,
/// title `quine.py`; `theme_name` is the syntect theme name.
pub fn highlight(code: &str, info: &str, theme_name: &str) -> (r: String)
    ensures
        r@ == highlight_spec(code@, info@, theme_name@),
{
    let (language, title) = parse_fence_info(info);
    let lines = split_lines_with_endings(code);
    let mut count = String::new();
    push_decimal(&mut count, lines.len());
    let width = chars_of(count.as_str()).len();
    let theme = choose_theme(theme_name);
    let hl = highlight_lines(&lines, language.as_str(), theme.as_str());
    let ghost lv = lines_view(lines@);
    let ghost hv = crate::render::wechat::opts_view(hl@);
    let mut body = String::new();
    let mut i: usize = 0;
    while i < lines.len()
        invariant
            i <= lines@.len(),
            lv == lines_view(lines@),
            hv == crate::render::wechat::opts_view(hl@),
            hl@.len() == lines@.len(),
            body@ + code_lines_html(lv, hv, i as int, width as nat) == code_lines_html(lv, hv, 0, width as nat),
        decreases lines@.len() - i,
    {
        let ghost before = body@;
        push_str(&mut body, "<span class=\"cl\"><span class=\"ln\">");
        push_right_aligned(&mut body, i + 1, width);
        push_str(&mut body, "</span>");
        assert(hv[i as int] == crate::render::wechat::opt_seq_view(hl@[i as int]));
        match &hl[i] {
            Some(h) => push_str(&mut body, h.as_str()),
            None => {
                let e = html_escape(lines[i].as_str());
                push_str(&mut body, e.as_str());
            },
        }
        push_str(&mut body, "</span>");
        i = i + 1;
    }
    let mut out = String::new();
    push_str(&mut out, "<div class=\"code-block\" data-lang=\"");
    push_str(&mut out, language.as_str());
    push_str(&mut out, "\">");
    match title {
        Some(t) => {
            push_str(&mut out, "<div class=\"code-header\"><span class=\"code-title\">");
            push_str(&mut out, t.as_str());
        },
        None => {
            push_str(&mut out, "<div class=\"code-header\"><span class=\"code-lang\">");
            push_str(&mut out, language.as_str());
        },
    }
    push_str(&mut out, "</span>");
    push_str(&mut out, "<span class=\"code-actions\"><button class=\"code-wrap\" onclick=\"toggleWrap(this)\" title=\"切换自动换行\">换行</button><button class=\"code-copy\" onclick=\"copyCode(this)\" title=\"复制代码\">复制</button></span>");
    push_str(&mut out, "</div>");
    push_str(&mut out, "<pre class=\"highlight\"><code>");
    push_str(&mut out, body.as_str());
    push_str(&mut out, "</code></pre></div>");
    proof {
        assert(body@ + Seq::<char>::empty() =~= body@);
    }
    out
}

/// Generate the stylesheet for the highlight theme (written to `css/highlight.css`).
pub fn generate_highlight_css(theme_name: &str) -> (r: String)
    ensures
        r@ == syntect_css(theme_choice(theme_name@)),
{
    let theme = choose_theme(theme_name);
    theme_css(theme.as_str())
}

} // verus!
