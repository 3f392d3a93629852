//! The rendering pipeline: Hexo tags, markdown, code, math and the table of
//! contents.
//!
//! A text is rendered in three passes:
//! 1. Hexo tags (`{% note %}`, `{% video %}`, ...) are extracted and replaced
//!    by placeholders;
//! 2. the markdown is rendered (placeholders pass through as text);
//! 3. the placeholders are replaced by the tags' HTML, whose contents are
//!    rendered the same way.
//! The HTML is then tidied: images with alt text get a caption, block
//! elements are taken out of the paragraphs wrapped around them, and `**bold**`
//! and `~~strikethrough~~` that the parser left (next to CJK characters) are
//! converted.

pub mod code_highlight;
pub mod hexo_tags;
pub mod markdown;
pub mod math;
pub mod rewrite;
pub mod toc;
pub mod wechat;

use vstd::prelude::*;
use crate::post::Post;
use crate::text::{
    chars_of, decimal, find_char, find_char_from, first_occurrence, first_occurrence_exec, has_at, is_ws,
    is_ws_char, lemma_find_char_from, lemma_first_occurrence, lemma_skip_ws, occurs_at, push_char,
    push_decimal, push_str, skip_ws, skip_ws_exec, string_of_range, trim_range, trim_seq,
};
use self::hexo_tags::{
    brace_count, extract, extract_spec, lemma_extract_braces, placeholder, render_tag, render_tag_spec,
    tag_content, tags_view, HexoTag, HexoTagView,
};
use self::markdown::{render_markdown, render_markdown_spec, RenderOptions, RenderOptionsView};
use self::rewrite::{contains_spec, contains_str, replace_spec, replace_str, rewrite_all, rewrite_from, Rewrite};
use self::toc::{generate_toc, toc_spec};
use self::wechat::WechatPreviewStore;

verus! {

// ---------------------------------------------------------------- markers

/// `MM([^M]+)MM` for the marker character `M`, replaced by the text wrapped
/// in the element `tag`.
pub struct PairedMarker {
    pub mark: char,
    pub tag: &'static str,
}

impl Rewrite for PairedMarker {
    open spec fn rule(&self, s: Seq<char>, p: int) -> Option<(int, Seq<char>)> {
        if 0 <= p && p + 1 < s.len() && s[p] == self.mark && s[p + 1] == self.mark {
            match find_char_from(s, self.mark, p + 2) {
                Some(q) => if q > p + 2 && q + 1 < s.len() && s[q + 1] == self.mark {
                    Some((q + 2, "<"@ + self.tag@ + ">"@ + s.subrange(p + 2, q) + "</"@ + self.tag@ + ">"@))
                } else {
                    None
                },
                None => None,
            }
        } else {
            None
        }
    }

    fn apply_at(&self, cs: &Vec<char>, p: usize) -> (r: Option<(usize, String)>) {
        let n = cs.len();
        if !(p + 1 < n && cs[p] == self.mark && cs[p + 1] == self.mark) {
            return None;
        }
        match find_char(cs, self.mark, p + 2) {
            Some(q) => {
                proof {
                    lemma_find_char_from(cs@, self.mark, p + 2);
                }
                if q > p + 2 && q + 1 < n && cs[q + 1] == self.mark {
                    let mut out = String::new();
                    push_str(&mut out, "<");
                    push_str(&mut out, self.tag);
                    push_str(&mut out, ">");
                    let inner = string_of_range(cs, p + 2, q);
                    push_str(&mut out, inner.as_str());
                    push_str(&mut out, "</");
                    push_str(&mut out, self.tag);
                    push_str(&mut out, ">");
                    Some((q + 2, out))
                } else {
                    None
                }
            },
            None => None,
        }
    }
}

pub open spec fn strikethrough_fix() -> PairedMarker {
    PairedMarker { mark: '~', tag: "del" }
}

pub open spec fn bold_fix() -> PairedMarker {
    PairedMarker { mark: '*', tag: "strong" }
}

// ---------------------------------------------------------------- figures

/// `<figure>.*?</figure>` at `p` (no line break inside): the end of the match.
pub open spec fn figure_at(s: Seq<char>, p: int) -> Option<int> {
    if occurs_at(s, p, "<figure>"@) {
        match first_occurrence(s, "</figure>"@, p + 8) {
            Some(k) => match find_char_from(s, '\n', p + 8) {
                Some(nl) => if nl < k { None } else { Some(k + 9) },
                None => Some(k + 9),
            },
            None => None,
        }
    } else {
        None
    }
}

/// The marker that stands for the `n`-th figure set aside.
pub open spec fn saved_figure(n: nat) -> Seq<char> {
    "<<SAVEDFIG"@ + decimal(n) + ">>"@
}

/// The figures of `s` from `p` on replaced by markers (numbered from `n`),
/// and the figures set aside.
pub open spec fn protect_figures_from(s: Seq<char>, p: int, n: nat) -> (Seq<char>, Seq<Seq<char>>)
    decreases s.len() - p,
{
    if p < 0 || p >= s.len() {
        (Seq::empty(), Seq::empty())
    } else {
        match figure_at(s, p) {
            Some(e) => if p < e <= s.len() {
                let r = protect_figures_from(s, e, n + 1);
                (saved_figure(n) + r.0, seq![s.subrange(p, e)] + r.1)
            } else {
                (Seq::empty(), Seq::empty())
            },
            None => {
                let r = protect_figures_from(s, p + 1, n);
                (seq![s[p]] + r.0, r.1)
            },
        }
    }
}

fn figure_at_exec(cs: &Vec<char>, p: usize) -> (r: Option<usize>)
    requires
        p < cs@.len(),
    ensures
        r matches Some(e) ==> figure_at(cs@, p as int) == Some(e as int) && p < e <= cs@.len(),
        r is None ==> figure_at(cs@, p as int) is None,
{
    let n = cs.len();
    if !has_at(cs, p, "<figure>") {
        return None;
    }
    proof {
        reveal_strlit("<figure>");
        reveal_strlit("</figure>");
    }
    match first_occurrence_exec(cs, "</figure>", p + 8) {
        Some(k) => {
            proof {
                lemma_first_occurrence(cs@, "</figure>"@, p + 8);
            }
            match find_char(cs, '\n', p + 8) {
                Some(nl) => if nl < k {
                    None
                } else {
                    Some(k + 9)
                },
                None => Some(k + 9),
            }
        },
        None => None,
    }
}

/// The figures of `html` replaced by numbered markers, and the figures.
pub fn protect_figures(html: &str) -> (r: (String, Vec<String>))
    ensures
        r.0@ == protect_figures_from(html@, 0, 0).0,
        r.1@.map_values(|f: String| f@) == protect_figures_from(html@, 0, 0).1,
{
    let cs = chars_of(html);
    let n = cs.len();
    let mut out = String::new();
    let mut figs: Vec<String> = Vec::new();
    let mut p: usize = 0;
    while p < n
        invariant
            n == cs@.len(),
            cs@ == html@,
            p <= n,
            out@ + protect_figures_from(cs@, p as int, figs@.len()).0 == protect_figures_from(cs@, 0, 0).0,
            figs@.map_values(|f: String| f@) + protect_figures_from(cs@, p as int, figs@.len()).1
                == protect_figures_from(cs@, 0, 0).1,
        decreases n - p,
    {
        match figure_at_exec(&cs, p) {
            Some(e) => {
                let ghost before = figs@;
                push_str(&mut out, "<<SAVEDFIG");
                push_decimal(&mut out, figs.len());
                push_str(&mut out, ">>");
                let fig = string_of_range(&cs, p, e);
                figs.push(fig);
                proof {
                    assert(figs@.map_values(|f: String| f@) =~= before.map_values(|f: String| f@) + seq![cs@.subrange(
                        p as int,
                        e as int,
                    )]);
                }
                p = e;
            },
            None => {
                push_char(&mut out, cs[p]);
                p = p + 1;
            },
        }
    }
    proof {
        assert(out@ + Seq::<char>::empty() =~= out@);
        assert(figs@.map_values(|f: String| f@) + Seq::<Seq<char>>::empty() =~= figs@.map_values(|f: String| f@));
    }
    (out, figs)
}

/// The figures put back in place of their markers, in order.
pub open spec fn restore_figures(html: Seq<char>, figs: Seq<Seq<char>>, k: nat) -> Seq<char>
    decreases k,
{
    if k == 0 || k > figs.len() {
        html
    } else {
        replace_spec(restore_figures(html, figs, (k - 1) as nat), saved_figure((k - 1) as nat), figs[k - 1])
    }
}

// ---------------------------------------------------------------- image captions

/// After `alt="` at `j`: the closing quote of a non-empty alt text and the
/// `>` that ends the tag.
pub open spec fn img_rest(s: Seq<char>, j: int) -> Option<(int, int)> {
    if occurs_at(s, j, "alt=\""@) {
        match find_char_from(s, '"', j + 5) {
            Some(q) => if q > j + 5 {
                match find_char_from(s, '>', q + 1) {
                    Some(g) => Some((q, g)),
                    None => None,
                }
            } else {
                None
            },
            None => None,
        }
    } else {
        None
    }
}

/// The last `j` in `b..=top` where the rest of an image tag matches.
pub open spec fn img_alt_at(s: Seq<char>, b: int, top: int) -> Option<int>
    decreases top - b + 1,
{
    if top < b {
        None
    } else if img_rest(s, top) is Some {
        Some(top)
    } else {
        img_alt_at(s, b, top - 1)
    }
}

/// `<img\s+([^>]*)alt="([^"]+)"([^>]*)>` wrapped in a figure with the alt
/// text as caption.
pub struct ImgCaption;

impl Rewrite for ImgCaption {
    open spec fn rule(&self, s: Seq<char>, p: int) -> Option<(int, Seq<char>)> {
        if occurs_at(s, p, "<img"@) && p + 4 < s.len() && is_ws(s[p + 4]) {
            let b = skip_ws(s, p + 4);
            let top = match find_char_from(s, '>', b) {
                Some(g) => g,
                None => s.len() as int,
            };
            match img_alt_at(s, b, top) {
                Some(j) => {
                    let (q, g) = img_rest(s, j).unwrap();
                    let alt = s.subrange(j + 5, q);
                    Some((g + 1, "<figure><img "@ + s.subrange(b, j) + "alt=\""@ + alt + "\""@ + s.subrange(q + 1, g)
                        + "><figcaption>"@ + alt + "</figcaption></figure>"@))
                },
                None => None,
            }
        } else {
            None
        }
    }

    fn apply_at(&self, cs: &Vec<char>, p: usize) -> (r: Option<(usize, String)>) {
        let n = cs.len();
        if !(n - p > 4 && has_at(cs, p, "<img") && is_ws_char(cs[p + 4])) {
            return None;
        }
        proof {
            reveal_strlit("<img");
            reveal_strlit("alt=\"");
            lemma_skip_ws(cs@, p + 4);
        }
        let b = skip_ws_exec(cs, p + 4);
        let top = match find_char(cs, '>', b) {
            Some(g) => g,
            None => n,
        };
        proof {
            lemma_find_char_from(cs@, '>', b as int);
        }
        let mut j = top;
        loop
            invariant
                p + 4 <= b <= j <= n,
                occurs_at(cs@, p as int, "<img"@) && p + 4 < n && is_ws(cs@[p + 4]),
                b as int == skip_ws(cs@, p + 4),
                top as int == match find_char_from(cs@, '>', b as int) {
                    Some(g) => g,
                    None => n as int,
                },
                n == cs@.len(),
                img_alt_at(cs@, b as int, top as int) == img_alt_at(cs@, b as int, j as int),
            decreases j + 1 - b,
        {
            match img_rest_exec(cs, j) {
                Some((q, g)) => {
                    let mut out = String::new();
                    push_str(&mut out, "<figure><img ");
                    let before = string_of_range(cs, b, j);
                    push_str(&mut out, before.as_str());
                    push_str(&mut out, "alt=\"");
                    let alt = string_of_range(cs, j + 5, q);
                    push_str(&mut out, alt.as_str());
                    push_str(&mut out, "\"");
                    let after = string_of_range(cs, q + 1, g);
                    push_str(&mut out, after.as_str());
                    push_str(&mut out, "><figcaption>");
                    push_str(&mut out, alt.as_str());
                    push_str(&mut out, "</figcaption></figure>");
                    return Some((g + 1, out));
                },
                None => {
                    if j == b {
                        assert(img_alt_at(cs@, b as int, b - 1) is None);
                        return None;
                    }
                    j = j - 1;
                },
            }
        }
    }
}

fn img_rest_exec(cs: &Vec<char>, j: usize) -> (r: Option<(usize, usize)>)
    requires
        j <= cs@.len(),
    ensures
        r matches Some((q, g)) ==> img_rest(cs@, j as int) == Some((q as int, g as int)) && j + 5 < q < g
            && g < cs@.len(),
        r is None ==> img_rest(cs@, j as int) is None,
{
    let n = cs.len();
    if !has_at(cs, j, "alt=\"") {
        return None;
    }
    proof {
        reveal_strlit("alt=\"");
    }
    match find_char(cs, '"', j + 5) {
        Some(q) => {
            proof {
                lemma_find_char_from(cs@, '"', j + 5);
            }
            if q > j + 5 {
                match find_char(cs, '>', q + 1) {
                    Some(g) => {
                        proof {
                            lemma_find_char_from(cs@, '>', q + 1);
                        }
                        Some((q, g))
                    },
                    None => None,
                }
            } else {
                None
            }
        },
        None => None,
    }
}

// ---------------------------------------------------------------- blocks in paragraphs

/// Whether the regex class `\w` (Unicode word characters) matches `c`.
pub uninterp spec fn regex_word_char(c: char) -> bool;

/// Asks the `regex` crate whether `\w` matches the character `c`
/// (`Regex::new(r"^\w$")` then `is_match` on the one-character text). The
/// contract names the answer and states nothing of which characters those are.
#[verifier::external_body]
fn is_regex_word_char(c: char) -> (b: bool)
    ensures
        b == regex_word_char(c),
{
    regex::Regex::new(r"^\w$").unwrap().is_match(&c.to_string())
}

/// `div`, `details` or `figure` at `k`: the index after the name.
pub open spec fn block_name_end(s: Seq<char>, k: int) -> Option<int> {
    if occurs_at(s, k, "div"@) {
        Some(k + 3)
    } else if occurs_at(s, k, "details"@) {
        Some(k + 7)
    } else if occurs_at(s, k, "figure"@) {
        Some(k + 6)
    } else {
        None
    }
}

/// `</(?:div|details|figure)>` at `k`: the index after it.
pub open spec fn block_close_at(s: Seq<char>, k: int) -> Option<int> {
    if occurs_at(s, k, "</"@) {
        match block_name_end(s, k + 2) {
            Some(e) => if e < s.len() && s[e] == '>' { Some(e + 1) } else { None },
            None => None,
        }
    } else {
        None
    }
}

/// A word boundary (`\b`) at `e`.
pub open spec fn word_boundary_at(s: Seq<char>, e: int) -> bool {
    (0 < e <= s.len() && regex_word_char(s[e - 1])) != (0 <= e < s.len() && regex_word_char(s[e]))
}

/// The first closing block tag at or after `k` followed by `\s*</p>`: the
/// index after the tag and the end of the `</p>`.
pub open spec fn p_close_search(s: Seq<char>, k: int) -> Option<(int, int)>
    decreases s.len() - k,
{
    if k < 0 || k >= s.len() {
        None
    } else {
        match block_close_at(s, k) {
            Some(k2) => if occurs_at(s, skip_ws(s, k2), "</p>"@) {
                Some((k2, skip_ws(s, k2) + 4))
            } else {
                p_close_search(s, k + 1)
            },
            None => p_close_search(s, k + 1),
        }
    }
}

/// `<p>\s*(<(?:div|details|figure)\b[^>]*>[\s\S]*?</(?:div|details|figure)>)\s*</p>`
/// replaced by the block inside: a paragraph must not wrap a block.
pub struct UnwrapBlock;

impl Rewrite for UnwrapBlock {
    open spec fn rule(&self, s: Seq<char>, p: int) -> Option<(int, Seq<char>)> {
        if occurs_at(s, p, "<p>"@) {
            let lt = skip_ws(s, p + 3);
            if lt < s.len() && s[lt] == '<' {
                match block_name_end(s, lt + 1) {
                    Some(ne) => if word_boundary_at(s, ne) {
                        match find_char_from(s, '>', ne) {
                            Some(g) => match p_close_search(s, g + 1) {
                                Some((k2, end)) => Some((end, s.subrange(lt, k2))),
                                None => None,
                            },
                            None => None,
                        }
                    } else {
                        None
                    },
                    None => None,
                }
            } else {
                None
            }
        } else {
            None
        }
    }

    fn apply_at(&self, cs: &Vec<char>, p: usize) -> (r: Option<(usize, String)>) {
        let n = cs.len();
        if !has_at(cs, p, "<p>") {
            return None;
        }
        proof {
            reveal_strlit("<p>");
            lemma_skip_ws(cs@, p + 3);
        }
        let lt = skip_ws_exec(cs, p + 3);
        if !(lt < n && cs[lt] == '<') {
            return None;
        }
        let ne = match block_name_end_exec(cs, lt + 1) {
            Some(ne) => ne,
            None => return None,
        };
        let before = ne > 0 && is_regex_word_char(cs[ne - 1]);
        let after = ne < n && is_regex_word_char(cs[ne]);
        if before == after {
            return None;
        }
        match find_char(cs, '>', ne) {
            Some(g) => {
                proof {
                    lemma_find_char_from(cs@, '>', ne as int);
                }
                match p_close_search_exec(cs, g + 1) {
                    Some((k2, end)) => {
                        let block = string_of_range(cs, lt, k2);
                        Some((end, block))
                    },
                    None => None,
                }
            },
            None => None,
        }
    }
}

fn block_name_end_exec(cs: &Vec<char>, k: usize) -> (r: Option<usize>)
    requires
        k <= cs@.len(),
    ensures
        r matches Some(e) ==> block_name_end(cs@, k as int) == Some(e as int) && k < e <= cs@.len(),
        r is None ==> block_name_end(cs@, k as int) is None,
{
    let n = cs.len();
    proof {
        reveal_strlit("div");
        reveal_strlit("details");
        reveal_strlit("figure");
    }
    if has_at(cs, k, "div") {
        Some(k + 3)
    } else if has_at(cs, k, "details") {
        Some(k + 7)
    } else if has_at(cs, k, "figure") {
        Some(k + 6)
    } else {
        None
    }
}

fn block_close_at_exec(cs: &Vec<char>, k: usize) -> (r: Option<usize>)
    requires
        k <= cs@.len(),
    ensures
        r matches Some(e) ==> block_close_at(cs@, k as int) == Some(e as int) && k < e <= cs@.len(),
        r is None ==> block_close_at(cs@, k as int) is None,
{
    let n = cs.len();
    if !has_at(cs, k, "</") {
        return None;
    }
    proof {
        reveal_strlit("</");
    }
    match block_name_end_exec(cs, k + 2) {
        Some(e) => if e < n && cs[e] == '>' {
            Some(e + 1)
        } else {
            None
        },
        None => None,
    }
}

fn p_close_search_exec(cs: &Vec<char>, start: usize) -> (r: Option<(usize, usize)>)
    ensures
        r matches Some((k2, end)) ==> p_close_search(cs@, start as int) == Some((k2 as int, end as int))
            && start < k2 <= end <= cs@.len(),
        r is None ==> p_close_search(cs@, start as int) is None,
{
    let n = cs.len();
    let mut k = start;
    while k < n
        invariant
            n == cs@.len(),
            start <= k,
            p_close_search(cs@, start as int) == p_close_search(cs@, k as int),
        decreases n - k,
    {
        match block_close_at_exec(cs, k) {
            Some(k2) => {
                proof {
                    lemma_skip_ws(cs@, k2 as int);
                    reveal_strlit("</p>");
                }
                let w = skip_ws_exec(cs, k2);
                if has_at(cs, w, "</p>") {
                    return Some((k2, w + 4));
                }
            },
            None => {},
        }
        k = k + 1;
    }
    None
}

// ---------------------------------------------------------------- placeholders

/// A placeholder as the markdown renderer escapes it.
pub open spec fn escaped_placeholder(n: nat) -> Seq<char> {
    "&lt;&lt;PLACEHOLDER_"@ + decimal(n) + "&gt;&gt;"@
}

/// The placeholder of tag `n` replaced by its HTML: escaped, then wrapped in
/// a paragraph (which goes with it) or else bare.
pub open spec fn resolve_one(html: Seq<char>, n: nat, tag_html: Seq<char>) -> Seq<char> {
    let h1 = replace_spec(html, escaped_placeholder(n), tag_html);
    let wrapped = "<p>"@ + placeholder(n) + "</p>"@;
    if contains_spec(h1, wrapped) {
        replace_spec(h1, wrapped, tag_html)
    } else {
        replace_spec(h1, placeholder(n), tag_html)
    }
}

/// The placeholders of the first `k` tags resolved, in order.
pub open spec fn resolve_placeholders(html: Seq<char>, htmls: Seq<Seq<char>>, k: nat) -> Seq<char>
    decreases k,
{
    if k == 0 || k > htmls.len() {
        html
    } else {
        resolve_one(resolve_placeholders(html, htmls, (k - 1) as nat), (k - 1) as nat, htmls[k - 1])
    }
}

fn resolve_one_exec(html: &str, n: usize, tag_html: &str) -> (r: String)
    ensures
        r@ == resolve_one(html@, n as nat, tag_html@),
{
    proof {
        reveal_strlit("&lt;&lt;PLACEHOLDER_");
        reveal_strlit("<<PLACEHOLDER_");
        reveal_strlit("<p>");
    }
    let mut escaped = String::new();
    push_str(&mut escaped, "&lt;&lt;PLACEHOLDER_");
    push_decimal(&mut escaped, n);
    push_str(&mut escaped, "&gt;&gt;");
    let h1 = replace_str(html, escaped.as_str(), tag_html);
    let mut raw = String::new();
    push_str(&mut raw, "<<PLACEHOLDER_");
    push_decimal(&mut raw, n);
    push_str(&mut raw, ">>");
    let mut wrapped = String::new();
    push_str(&mut wrapped, "<p>");
    push_str(&mut wrapped, raw.as_str());
    push_str(&mut wrapped, "</p>");
    if contains_str(h1.as_str(), wrapped.as_str()) {
        replace_str(h1.as_str(), wrapped.as_str(), tag_html)
    } else {
        replace_str(h1.as_str(), raw.as_str(), tag_html)
    }
}

// ---------------------------------------------------------------- tidying

/// The HTML after the tags' placeholders are resolved: images captioned
/// (figures already there kept as they are), blocks taken out of paragraphs
/// (twice, for a block inside a block), then the bold and strikethrough fix.
pub open spec fn tidy_html(html: Seq<char>) -> Seq<char> {
    let (protected, figs) = protect_figures_from(html, 0, 0);
    let captioned = rewrite_from(ImgCaption, protected, 0);
    let restored = restore_figures(captioned, figs, figs.len());
    let unwrapped = rewrite_from(UnwrapBlock, rewrite_from(UnwrapBlock, restored, 0), 0);
    rewrite_from(bold_fix(), rewrite_from(strikethrough_fix(), unwrapped, 0), 0)
}

fn tidy_html_exec(html: &str) -> (r: String)
    ensures
        r@ == tidy_html(html@),
{
    let (protected, figs) = protect_figures(html);
    let ghost fv = figs@.map_values(|f: String| f@);
    let captioned = rewrite_all(&ImgCaption, protected.as_str());
    let mut restored = captioned;
    let mut i: usize = 0;
    proof {
        reveal_strlit("<<SAVEDFIG");
    }
    while i < figs.len()
        invariant
            fv == figs@.map_values(|f: String| f@),
            i <= figs@.len(),
            restored@ == restore_figures(rewrite_from(ImgCaption, protected@, 0), fv, i as nat),
        decreases figs@.len() - i,
    {
        let mut marker = String::new();
        push_str(&mut marker, "<<SAVEDFIG");
        push_decimal(&mut marker, i);
        push_str(&mut marker, ">>");
        restored = replace_str(restored.as_str(), marker.as_str(), figs[i].as_str());
        i = i + 1;
    }
    let u1 = rewrite_all(&UnwrapBlock, restored.as_str());
    let u2 = rewrite_all(&UnwrapBlock, u1.as_str());
    let del = PairedMarker { mark: '~', tag: "del" };
    let d = rewrite_all(&del, u2.as_str());
    let bold = PairedMarker { mark: '*', tag: "strong" };
    rewrite_all(&bold, d.as_str())
}

// ---------------------------------------------------------------- the pipeline

/// A text rendered with its Hexo tags: tags extracted, markdown rendered,
/// placeholders resolved with the tags' HTML, and the HTML tidied.
pub open spec fn hexo_render_spec(text: Seq<char>, o: RenderOptionsView) -> Seq<char>
    decreases brace_count(text), 2nat, 0nat,
{
    let (extracted, tags) = extract_spec(text);
    let html = render_markdown_spec(extracted, o).0;
    let htmls = tag_htmls_spec(tags, brace_count(text), o);
    tidy_html(resolve_placeholders(html, htmls, tags.len()))
}

/// The HTML of each tag, its content rendered where its `{` count is below
/// `bound` (which holds of every tag extracted from a text with `bound`).
pub open spec fn tag_htmls_spec(tags: Seq<HexoTagView>, bound: nat, o: RenderOptionsView) -> Seq<Seq<char>>
    decreases bound, 1nat, tags.len(),
{
    if tags.len() == 0 {
        Seq::empty()
    } else {
        tag_htmls_spec(tags.drop_last(), bound, o).push(tag_html_spec(tags.last(), bound, o))
    }
}

/// The HTML of one tag: a note's rendered content goes trimmed into a
/// paragraph, a picture group's as it is.
pub open spec fn tag_html_spec(t: HexoTagView, bound: nat, o: RenderOptionsView) -> Seq<char>
    decreases bound, 0nat, 0nat,
{
    let inner = match tag_content(t) {
        Some(c) => if brace_count(c) < bound {
            let r = hexo_render_spec(c, o);
            if t is Note { "<p>"@ + trim_seq(r) + "</p>"@ } else { r }
        } else {
            Seq::empty()
        },
        None => Seq::empty(),
    };
    render_tag_spec(t, inner)
}

pub proof fn lemma_tag_htmls(tags: Seq<HexoTagView>, bound: nat, o: RenderOptionsView)
    ensures
        tag_htmls_spec(tags, bound, o).len() == tags.len(),
        forall|k: int| 0 <= k < tags.len() ==> #[trigger] tag_htmls_spec(tags, bound, o)[k] == tag_html_spec(tags[k], bound, o),
    decreases tags.len(),
{
    if tags.len() > 0 {
        lemma_tag_htmls(tags.drop_last(), bound, o);
        assert forall|k: int| 0 <= k < tags.len() implies #[trigger] tag_htmls_spec(tags, bound, o)[k]
            == tag_html_spec(tags[k], bound, o) by {
            if k < tags.len() - 1 {
                assert(tags.drop_last()[k] == tags[k]);
            }
        }
    }
}

/// Renders a text with Hexo tag support: the tags are taken out, the
/// markdown rendered, the tags' HTML (with their contents rendered the same
/// way) put in place of their placeholders, and the HTML tidied.
pub fn render_with_hexo_tags(text: &str, opts: &RenderOptions) -> (r: String)
    ensures
        r@ == hexo_render_spec(text@, opts@),
    decreases brace_count(text@),
{
    let extracted = extract(text);
    proof {
        lemma_extract_braces(text@);
    }
    let ghost tags = extract_spec(text@).1;
    let ghost bound = brace_count(text@);
    let ghost htmls = tag_htmls_spec(tags, bound, opts@);
    proof {
        lemma_tag_htmls(tags, bound, opts@);
    }
    let rendered = render_markdown(extracted.text.as_str(), opts);
    let mut html = rendered.html;
    let mut i: usize = 0;
    while i < extracted.tags.len()
        invariant
            tags == tags_view(extracted.tags@),
            tags == extract_spec(text@).1,
            bound == brace_count(text@),
            htmls == tag_htmls_spec(tags, bound, opts@),
            htmls.len() == tags.len(),
            forall|k: int| 0 <= k < tags.len() ==> #[trigger] htmls[k] == tag_html_spec(tags[k], bound, opts@),
            forall|k: int| 0 <= k < tags.len() ==> (tag_content(#[trigger] tags[k]) matches Some(c)
                ==> brace_count(c) < bound),
            i <= extracted.tags@.len(),
            html@ == resolve_placeholders(render_markdown_spec(extract_spec(text@).0, opts@).0, htmls, i as nat),
        decreases extracted.tags@.len() - i,
    {
        let tag = &extracted.tags[i];
        assert(tags[i as int] == tag@);
        let inner = match tag {
            HexoTag::Note { content, .. } => {
                assert(tag_content(tags[i as int]) == Some(content@));
                let r = render_with_hexo_tags(content.as_str(), opts);
                let rc = chars_of(r.as_str());
                let (a, b) = trim_range(&rc);
                let trimmed = string_of_range(&rc, a, b);
                let mut out = String::new();
                push_str(&mut out, "<p>");
                push_str(&mut out, trimmed.as_str());
                push_str(&mut out, "</p>");
                out
            },
            HexoTag::GroupPicture { content, .. } => {
                assert(tag_content(tags[i as int]) == Some(content@));
                render_with_hexo_tags(content.as_str(), opts)
            },
            _ => String::new(),
        };
        let tag_html = render_tag(tag, inner.as_str());
        assert(tag_html@ == htmls[i as int]);
        html = resolve_one_exec(html.as_str(), i, tag_html.as_str());
        i = i + 1;
    }
    tidy_html_exec(html.as_str())
}

/// Rendered output of a post.
pub struct PostHtml {
    pub content: String,
    pub excerpt_html: String,
    pub toc_html: String,
    pub has_math: bool,
}

/// Whether a post has a table of contents: as its frontmatter says, and the
/// site's default where the frontmatter does not say.
pub open spec fn post_toc_spec(post: Post, default_toc: bool) -> bool {
    match post.frontmatter.toc {
        Some(t) => t,
        None => default_toc,
    }
}

/// The options a post is rendered with: math as its frontmatter says, the
/// table of contents as `post_toc_spec` decides.
pub open spec fn post_options(
    post: Post,
    code_theme: Seq<char>,
    default_toc: bool,
    previews: Option<(Seq<(String, self::wechat::WechatPreview)>, Seq<String>)>,
) -> RenderOptionsView {
    RenderOptionsView {
        enable_math: post.frontmatter.mathjax,
        enable_toc: post_toc_spec(post, default_toc),
        code_theme,
        wechat_previews: previews,
    }
}

pub open spec fn store_view(store: Option<&WechatPreviewStore>) -> Option<(Seq<(String, self::wechat::WechatPreview)>, Seq<String>)> {
    match store {
        Some(s) => Some((s.entries_spec(), s.failed_spec())),
        None => None,
    }
}

/// Renders a post: body and excerpt with Hexo tags, and, where the post has a
/// table of contents, its HTML from the body's headings (collected without
/// math or cards); an empty text where it has none.
pub fn render_post(
    post: &Post,
    code_theme: &str,
    default_toc: bool,
    wechat_previews: Option<&WechatPreviewStore>,
) -> (r: PostHtml)
    ensures
        r.content@ == hexo_render_spec(post.body@, post_options(*post, code_theme@, default_toc, store_view(wechat_previews))),
        r.excerpt_html@ == hexo_render_spec(post.excerpt@, post_options(*post, code_theme@, default_toc, store_view(wechat_previews))),
        post_toc_spec(*post, default_toc) ==> r.toc_html@ == toc_spec(render_markdown_spec(post.body@, RenderOptionsView {
            enable_math: false,
            enable_toc: true,
            code_theme: code_theme@,
            wechat_previews: None,
        }).1, post.frontmatter.mathjax),
        !post_toc_spec(*post, default_toc) ==> r.toc_html@.len() == 0,
        r.has_math == post.frontmatter.mathjax,
{
    let enable_toc = match post.frontmatter.toc {
        Some(t) => t,
        None => default_toc,
    };
    let opts = RenderOptions {
        enable_math: post.frontmatter.mathjax,
        enable_toc,
        code_theme: code_theme.to_string(),
        wechat_previews,
    };
    let content = render_with_hexo_tags(post.body.as_str(), &opts);
    let excerpt_html = render_with_hexo_tags(post.excerpt.as_str(), &opts);
    let toc_html = if enable_toc {
        let toc_opts = RenderOptions {
            enable_math: false,
            enable_toc: true,
            code_theme: code_theme.to_string(),
            wechat_previews: None,
        };
        let toc_result = render_markdown(post.body.as_str(), &toc_opts);
        generate_toc(toc_result.toc.as_slice(), post.frontmatter.mathjax)
    } else {
        String::new()
    };
    PostHtml { content, excerpt_html, toc_html, has_math: post.frontmatter.mathjax }
}

} // verus!
