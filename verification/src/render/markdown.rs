//! Markdown to HTML through pulldown-cmark, with the parser's events
//! intercepted for special handling:
//! - inline and display math are rendered by KaTeX;
//! - fenced code is highlighted (mermaid diagrams are passed through);
//! - headings get an `id` and are collected for the table of contents;
//! - links to WeChat articles become share cards.

use vstd::prelude::*;
use pulldown_cmark::{Event, Options, Parser};
use pulldown_cmark::CodeBlockKind::Fenced;
use pulldown_cmark::Event::{Code, DisplayMath, End, HardBreak, InlineMath, SoftBreak, Start, Text};
use pulldown_cmark::Tag::{CodeBlock, Heading, Link};
use pulldown_cmark::TagEnd::{CodeBlock as CodeBlockClose, Heading as HeadingClose, Link as LinkClose};
use crate::text::{
    chars_of, collapse_whitespace, decimal, join_spaces, lemma_skip_ws, push_char, push_decimal, push_str,
    skip_ws_exec, split_words, string_of_range, trim_range, trim_seq, trim_start_index, words_from,
};
use crate::utils::{escape_seq, html_escape};
use super::code_highlight::{highlight, highlight_spec};
use super::math::{render_display, render_display_spec, render_inline, render_inline_spec};
use super::rewrite::{rewrite_all, rewrite_from, Rewrite};
use super::toc::{
    ascii_lower, inline_math_at, inline_math_at_exec, lemma_first_dollar_or_newline, is_slug, lemma_slugify_is_slug, lower_char, slugify,
    slugify_spec, toc_item_view, toc_items_view, TocItem,
};
use super::wechat::{
    ascii_lower_seq, get_spec, opt_seq_view, str_eq, str_non_empty, opts_view, starts_with_spec, WechatPreview, WechatPreviewStore,
};

verus! {

// ---------------------------------------------------------------- events

/// A parser event as far as the renderer looks at it.
pub enum MdEvent {
    Text(String),
    Code(String),
    InlineMath(String),
    DisplayMath(String),
    /// A soft or hard line break.
    Break,
    /// Start of a fenced code block, with its info string.
    FencedCodeStart(String),
    CodeBlockEnd,
    /// Start of a heading, with its level.
    HeadingStart(u8),
    HeadingEnd,
    /// Start of a link, with its destination.
    LinkStart(String),
    LinkEnd,
    /// Raw HTML put in place of an event by the renderer.
    Html(String),
    /// Any other event.
    Other,
}

pub enum MdEventView {
    Text(Seq<char>),
    Code(Seq<char>),
    InlineMath(Seq<char>),
    DisplayMath(Seq<char>),
    Break,
    FencedCodeStart(Seq<char>),
    CodeBlockEnd,
    HeadingStart(u8),
    HeadingEnd,
    LinkStart(Seq<char>),
    LinkEnd,
    Html(Seq<char>),
    Other,
}

impl View for MdEvent {
    type V = MdEventView;

    open spec fn view(&self) -> MdEventView {
        match self {
            MdEvent::Text(s) => MdEventView::Text(s@),
            MdEvent::Code(s) => MdEventView::Code(s@),
            MdEvent::InlineMath(s) => MdEventView::InlineMath(s@),
            MdEvent::DisplayMath(s) => MdEventView::DisplayMath(s@),
            MdEvent::Break => MdEventView::Break,
            MdEvent::FencedCodeStart(s) => MdEventView::FencedCodeStart(s@),
            MdEvent::CodeBlockEnd => MdEventView::CodeBlockEnd,
            MdEvent::HeadingStart(l) => MdEventView::HeadingStart(*l),
            MdEvent::HeadingEnd => MdEventView::HeadingEnd,
            MdEvent::LinkStart(s) => MdEventView::LinkStart(s@),
            MdEvent::LinkEnd => MdEventView::LinkEnd,
            MdEvent::Html(s) => MdEventView::Html(s@),
            MdEvent::Other => MdEventView::Other,
        }
    }
}

pub open spec fn events_view(v: Seq<MdEvent>) -> Seq<MdEventView> {
    v.map_values(|e: MdEvent| e@)
}

/// The events pulldown-cmark's parser yields for `markdown` under the option
/// bits `options`, as the renderer sees them.
pub uninterp spec fn markdown_events(markdown: Seq<char>, options: u32) -> Seq<MdEventView>;

/// The HTML pulldown-cmark's `push_html` writes for the events of `markdown`
/// under `options`, where the event at index `k` is replaced by the raw HTML
/// `replaced[k]` wherever that is `Some`.
pub uninterp spec fn markdown_html(markdown: Seq<char>, options: u32, replaced: Seq<Option<Seq<char>>>) -> Seq<char>;

/// Every heading event has a level from 1 to 6.
pub open spec fn heading_levels_ok(evs: Seq<MdEventView>) -> bool {
    forall|k: int| 0 <= k < evs.len() ==> (#[trigger] evs[k] matches MdEventView::HeadingStart(l) ==> 1 <= l <= 6)
}

/// Calls `pulldown_cmark::Parser::new_ext` on `markdown` with the option bits
/// `options` and converts each event (those the renderer does not look at
/// become `Other`). Claimed: the result is `markdown_events` of the arguments,
/// and a heading's level is that of `HeadingLevel`, whose variants `H1` to
/// `H6` are numbered 1 to 6; nothing else is claimed of what the parser finds.
#[verifier::external_body]
fn parse_events(markdown: &str, options: u32) -> (r: Vec<MdEvent>)
    ensures
        events_view(r@) == markdown_events(markdown@, options),
        heading_levels_ok(events_view(r@)),
{
    Parser::new_ext(markdown, Options::from_bits_truncate(options)).map(|e| match e {
        Text(t) => MdEvent::Text(t.into()),
        Code(t) => MdEvent::Code(t.into()),
        InlineMath(t) => MdEvent::InlineMath(t.into()),
        DisplayMath(t) => MdEvent::DisplayMath(t.into()),
        SoftBreak | HardBreak => MdEvent::Break,
        Start(CodeBlock(Fenced(info))) => MdEvent::FencedCodeStart(info.into()),
        End(CodeBlockClose) => MdEvent::CodeBlockEnd,
        Start(Heading { level, .. }) => MdEvent::HeadingStart(level as u8),
        End(HeadingClose(_)) => MdEvent::HeadingEnd,
        Start(Link { dest_url, .. }) => MdEvent::LinkStart(dest_url.into()),
        End(LinkClose) => MdEvent::LinkEnd,
        _ => MdEvent::Other,
    }).collect()
}

/// Parses `markdown` again with `Parser::new_ext` under `options`, puts
/// `Event::Html(h)` in place of the event at index `k` wherever `replaced[k]`
/// is `Some(h)`, and writes the events with `pulldown_cmark::html::push_html`.
/// Claimed: the result is `markdown_html` of the arguments.
#[verifier::external_body]
fn events_html(markdown: &str, options: u32, replaced: &Vec<Option<String>>) -> (r: String)
    ensures
        r@ == markdown_html(markdown@, options, opts_view(replaced@)),
{
    let mut html = String::new();
    let events = Parser::new_ext(markdown, Options::from_bits_truncate(options)).zip(replaced.iter());
    let events = events.map(|(e, h)| match h { Some(h) => Event::Html(h.clone().into()), None => e });
    pulldown_cmark::html::push_html(&mut html, events);
    html
}

/// Parser options: tables, strikethrough and task lists, and math where asked.
pub open spec fn markdown_options(enable_math: bool) -> u32 {
    if enable_math { 1050 } else { 26 }
}

// ---------------------------------------------------------------- fenced code

/// Index of the first end of a code block at or after `k`.
pub open spec fn code_block_end(evs: Seq<MdEventView>, k: int) -> Option<int>
    decreases evs.len() - k,
{
    if k < 0 || k >= evs.len() {
        None
    } else if evs[k] is CodeBlockEnd {
        Some(k)
    } else {
        code_block_end(evs, k + 1)
    }
}

pub proof fn lemma_code_block_end(evs: Seq<MdEventView>, k: int)
    requires
        0 <= k,
    ensures
        code_block_end(evs, k) matches Some(j) ==> k <= j < evs.len() && evs[j] is CodeBlockEnd,
    decreases evs.len() - k,
{
    if k < evs.len() && !(evs[k] is CodeBlockEnd) {
        lemma_code_block_end(evs, k + 1);
    }
}

/// The texts of `evs[lo..hi]`, one per line.
pub open spec fn code_text(evs: Seq<MdEventView>, lo: int, hi: int) -> Seq<char>
    decreases hi - lo,
{
    if hi <= lo {
        Seq::empty()
    } else {
        let acc = code_text(evs, lo, hi - 1);
        match evs[hi - 1] {
            MdEventView::Text(t) => if acc.len() == 0 { t } else { acc + seq!['\n'] + t },
            _ => acc,
        }
    }
}

/// The first whitespace-separated word of `s`, or nothing.
pub open spec fn first_word(s: Seq<char>) -> Seq<char> {
    let ws = words_from(s, 0);
    if ws.len() > 0 { ws[0] } else { Seq::empty() }
}

/// Inline math in a mermaid diagram: each `$...$` (as the TOC finds it)
/// doubled to `$$...$$`.
pub struct MermaidMath;

impl Rewrite for MermaidMath {
    open spec fn rule(&self, s: Seq<char>, p: int) -> Option<(int, Seq<char>)> {
        match inline_math_at(s, p) {
            Some((open, end)) => Some((end, s.subrange(p, open) + "$$"@ + s.subrange(open + 1, end - 1) + "$$"@)),
            None => None,
        }
    }

    fn apply_at(&self, cs: &Vec<char>, p: usize) -> (r: Option<(usize, String)>) {
        match inline_math_at_exec(cs, p) {
            Some((open, end)) => {
                proof {
                    lemma_first_dollar_or_newline(cs@, open + 1);
                }
                let mut out = string_of_range(cs, p, open);
                push_str(&mut out, "$$");
                let inner = string_of_range(cs, open + 1, end - 1);
                push_str(&mut out, inner.as_str());
                push_str(&mut out, "$$");
                Some((end, out))
            },
            None => None,
        }
    }
}

pub open spec fn normalize_mermaid_inline_math_spec(code: Seq<char>) -> Seq<char> {
    rewrite_from(MermaidMath, code, 0)
}

/// Inline `$...$` math in a mermaid diagram turned into `$$...$$`, which the
/// diagram renderer understands.
pub fn normalize_mermaid_inline_math(code: &str) -> (r: String)
    ensures
        r@ == normalize_mermaid_inline_math_spec(code@),
{
    rewrite_all(&MermaidMath, code)
}

/// The HTML of a fenced code block: mermaid diagrams are passed through
/// escaped, everything else is highlighted.
pub open spec fn fence_html(code: Seq<char>, info: Seq<char>, enable_math: bool, theme: Seq<char>) -> Seq<char> {
    if first_word(info) == "mermaid"@ {
        let c = if enable_math { normalize_mermaid_inline_math_spec(code) } else { code };
        "<div class=\"mermaid-container\"><pre class=\"mermaid\">"@ + escape_seq(c) + "</pre></div>"@
    } else {
        highlight_spec(code, info, theme)
    }
}

/// `evs` with the events at indices `lo..=hi` replaced by empty HTML.
pub open spec fn blank(evs: Seq<MdEventView>, lo: int, hi: int) -> Seq<MdEventView> {
    Seq::new(evs.len(), |k: int| if lo <= k <= hi { MdEventView::Html(Seq::empty()) } else { evs[k] })
}

// ---------------------------------------------------------------- headings

/// Index of the first end of a heading at or after `k`, or the length.
pub open spec fn heading_end(evs: Seq<MdEventView>, k: int) -> int
    decreases evs.len() - k,
{
    if k < 0 || k >= evs.len() {
        evs.len() as int
    } else if evs[k] is HeadingEnd {
        k
    } else {
        heading_end(evs, k + 1)
    }
}

pub proof fn lemma_heading_end(evs: Seq<MdEventView>, k: int)
    requires
        0 <= k <= evs.len(),
    ensures
        k <= heading_end(evs, k) <= evs.len(),
        heading_end(evs, k) < evs.len() ==> evs[heading_end(evs, k)] is HeadingEnd,
    decreases evs.len() - k,
{
    if k < evs.len() && !(evs[k] is HeadingEnd) {
        lemma_heading_end(evs, k + 1);
    }
}

/// The text and inline code of `evs[lo..hi]`, concatenated.
pub open spec fn heading_text(evs: Seq<MdEventView>, lo: int, hi: int) -> Seq<char>
    decreases hi - lo,
{
    if hi <= lo {
        Seq::empty()
    } else {
        let acc = heading_text(evs, lo, hi - 1);
        match evs[hi - 1] {
            MdEventView::Text(t) => acc + t,
            MdEventView::Code(t) => acc + t,
            _ => acc,
        }
    }
}

pub open spec fn heading_open(level: u8, id: Seq<char>) -> Seq<char> {
    "<h"@ + decimal(level as nat) + " id=\""@ + id + "\">"@
}

pub open spec fn heading_close(level: u8) -> Seq<char> {
    "</h"@ + decimal(level as nat) + ">"@
}

// ---------------------------------------------------------------- links

/// Index of the end of the link whose content starts at `k`, inside
/// `depth` nested links.
pub open spec fn link_end(evs: Seq<MdEventView>, k: int, depth: nat) -> Option<int>
    decreases evs.len() - k,
{
    if k < 0 || k >= evs.len() {
        None
    } else {
        match evs[k] {
            MdEventView::LinkStart(_) => link_end(evs, k + 1, depth + 1),
            MdEventView::LinkEnd => if depth == 0 { Some(k) } else { link_end(evs, k + 1, (depth - 1) as nat) },
            _ => link_end(evs, k + 1, depth),
        }
    }
}

pub proof fn lemma_link_end(evs: Seq<MdEventView>, k: int, depth: nat)
    requires
        0 <= k,
    ensures
        link_end(evs, k, depth) matches Some(j) ==> k <= j < evs.len(),
    decreases evs.len() - k,
{
    if k < evs.len() {
        match evs[k] {
            MdEventView::LinkStart(_) => lemma_link_end(evs, k + 1, depth + 1),
            MdEventView::LinkEnd => if depth != 0 { lemma_link_end(evs, k + 1, (depth - 1) as nat) },
            _ => lemma_link_end(evs, k + 1, depth),
        }
    }
}

// ---------------------------------------------------------------- WeChat cards

/// `url` without leading whitespace, ASCII-lower-cased, starts with the
/// address of a WeChat article.
pub open spec fn is_wechat_mp_link_spec(url: Seq<char>) -> bool {
    let n = ascii_lower_seq(url.subrange(trim_start_index(url), url.len() as int));
    starts_with_spec(n, "https://mp.weixin.qq.com/"@) || starts_with_spec(n, "http://mp.weixin.qq.com/"@)
}

/// `cs[a..]`, ASCII-lower-cased, starts with `p`.
fn lower_starts_with(cs: &Vec<char>, a: usize, p: &str) -> (b: bool)
    requires
        a <= cs@.len(),
    ensures
        b == starts_with_spec(ascii_lower_seq(cs@.subrange(a as int, cs@.len() as int)), p@),
{
    let pc = chars_of(p);
    let ghost low = ascii_lower_seq(cs@.subrange(a as int, cs@.len() as int));
    if cs.len() - a < pc.len() {
        return false;
    }
    let mut k: usize = 0;
    while k < pc.len()
        invariant
            pc@ == p@,
            a + pc.len() <= cs.len(),
            low == ascii_lower_seq(cs@.subrange(a as int, cs@.len() as int)),
            k <= pc@.len(),
            forall|j: int| 0 <= j < k ==> low[j] == pc@[j],
        decreases pc@.len() - k,
    {
        if lower_char(cs[a + k]) != pc[k] {
            assert(low.subrange(0, pc@.len() as int)[k as int] != pc@[k as int]);
            return false;
        }
        k = k + 1;
    }
    assert(low.subrange(0, pc@.len() as int) =~= pc@);
    true
}

/// Whether `url` points to a WeChat public account article.
pub fn is_wechat_mp_link(url: &str) -> (b: bool)
    ensures
        b == is_wechat_mp_link_spec(url@),
{
    let cs = chars_of(url);
    let a = skip_ws_exec(&cs, 0);
    proof {
        lemma_skip_ws(cs@, 0);
    }
    lower_starts_with(&cs, a, "https://mp.weixin.qq.com/") || lower_starts_with(&cs, a, "http://mp.weixin.qq.com/")
}

/// `s` trimmed, where something is left.
pub open spec fn non_empty_spec(s: Seq<char>) -> Option<Seq<char>> {
    if trim_seq(s).len() == 0 { None } else { Some(trim_seq(s)) }
}

/// The trimmed value, unless nothing is left.
pub fn non_empty(value: &str) -> (r: Option<String>)
    ensures
        opt_seq_view(r) == non_empty_spec(value@),
{
    let cs = chars_of(value);
    let (a, b) = trim_range(&cs);
    if a == b {
        None
    } else {
        Some(string_of_range(&cs, a, b))
    }
}

/// The words of `s` joined by single spaces, cut after `max_chars`
/// characters with `...` added where something was cut.
pub open spec fn compact_preview_text_spec(s: Seq<char>, max_chars: nat) -> Seq<char> {
    let c = join_spaces(words_from(s, 0));
    if c.len() > max_chars { c.subrange(0, max_chars as int) + "..."@ } else { c }
}

pub fn compact_preview_text(value: &str, max_chars: usize) -> (r: String)
    ensures
        r@ == compact_preview_text_spec(value@, max_chars as nat),
{
    let compacted = collapse_whitespace(value);
    let cs = chars_of(compacted.as_str());
    if cs.len() > max_chars {
        let mut out = string_of_range(&cs, 0, max_chars);
        push_str(&mut out, "...");
        out
    } else {
        compacted
    }
}

/// The link text is not worth showing as a tooltip: it is blank, the URL
/// itself (ignoring ASCII case), or another article address.
pub open spec fn should_use_default_wechat_title_spec(title: Seq<char>, url: Seq<char>) -> bool {
    let t = trim_seq(title);
    t.len() == 0 || ascii_lower_seq(t) == ascii_lower_seq(trim_seq(url)) || is_wechat_mp_link_spec(t)
}

/// Equality ignoring ASCII case.
fn eq_ignore_ascii_case(a: &Vec<char>, b: &Vec<char>) -> (r: bool)
    ensures
        r == (ascii_lower_seq(a@) == ascii_lower_seq(b@)),
{
    if a.len() != b.len() {
        assert(ascii_lower_seq(a@).len() != ascii_lower_seq(b@).len());
        return false;
    }
    let mut k: usize = 0;
    while k < a.len()
        invariant
            a@.len() == b@.len(),
            k <= a@.len(),
            forall|j: int| 0 <= j < k ==> ascii_lower(a@[j]) == ascii_lower(b@[j]),
        decreases a@.len() - k,
    {
        if lower_char(a[k]) != lower_char(b[k]) {
            assert(ascii_lower_seq(a@)[k as int] != ascii_lower_seq(b@)[k as int]);
            return false;
        }
        k = k + 1;
    }
    assert(ascii_lower_seq(a@) =~= ascii_lower_seq(b@));
    true
}

pub fn should_use_default_wechat_title(title: &str, url: &str) -> (b: bool)
    ensures
        b == should_use_default_wechat_title_spec(title@, url@),
{
    let tc = chars_of(title);
    let (a, b) = trim_range(&tc);
    if a == b {
        return false || true;
    }
    let t = string_of_range(&tc, a, b);
    let uc = chars_of(url);
    let (ua, ub) = trim_range(&uc);
    let u = string_of_range(&uc, ua, ub);
    let tv = chars_of(t.as_str());
    let uv = chars_of(u.as_str());
    eq_ignore_ascii_case(&tv, &uv) || is_wechat_mp_link(t.as_str())
}

/// The text of `evs[lo..hi]`: texts, code and math as they are, line breaks
/// as spaces.
pub open spec fn plain_text(evs: Seq<MdEventView>, lo: int, hi: int) -> Seq<char>
    decreases hi - lo,
{
    if hi <= lo {
        Seq::empty()
    } else {
        let acc = plain_text(evs, lo, hi - 1);
        match evs[hi - 1] {
            MdEventView::Text(t) => acc + t,
            MdEventView::Code(t) => acc + t,
            MdEventView::InlineMath(t) => acc + t,
            MdEventView::DisplayMath(t) => acc + t,
            MdEventView::Break => acc + seq![' '],
            _ => acc,
        }
    }
}

pub fn collect_plain_text(evs: &Vec<MdEvent>, lo: usize, hi: usize) -> (r: String)
    requires
        lo <= hi <= evs@.len(),
    ensures
        r@ == plain_text(events_view(evs@), lo as int, hi as int),
{
    let ghost ev = events_view(evs@);
    let mut out = String::new();
    let mut k = lo;
    while k < hi
        invariant
            ev == events_view(evs@),
            lo <= k <= hi <= evs@.len(),
            out@ == plain_text(ev, lo as int, k as int),
        decreases hi - k,
    {
        match &evs[k] {
            MdEvent::Text(t) => push_str(&mut out, t.as_str()),
            MdEvent::Code(t) => push_str(&mut out, t.as_str()),
            MdEvent::InlineMath(t) => push_str(&mut out, t.as_str()),
            MdEvent::DisplayMath(t) => push_str(&mut out, t.as_str()),
            MdEvent::Break => push_char(&mut out, ' '),
            _ => {},
        }
        k = k + 1;
    }
    out
}

/// The image of a card: a wide cover above the text, a square one beside it,
/// or an icon.
pub enum WechatCardMedia {
    Hero(String),
    Side(String),
    Icon,
}

pub enum CardMediaView {
    Hero(Seq<char>),
    Side(Seq<char>),
    Icon,
}

impl View for WechatCardMedia {
    type V = CardMediaView;

    open spec fn view(&self) -> CardMediaView {
        match self {
            WechatCardMedia::Hero(u) => CardMediaView::Hero(u@),
            WechatCardMedia::Side(u) => CardMediaView::Side(u@),
            WechatCardMedia::Icon => CardMediaView::Icon,
        }
    }
}

pub open spec fn card_class_spec(m: CardMediaView) -> Seq<char> {
    match m {
        CardMediaView::Hero(_) => "wechat-card has-hero-cover"@,
        CardMediaView::Side(_) => "wechat-card has-cover"@,
        CardMediaView::Icon => "wechat-card"@,
    }
}

pub open spec fn hero_html_spec(m: CardMediaView) -> Seq<char> {
    match m {
        CardMediaView::Hero(u) => "<img class=\"wechat-card-hero\" src=\""@ + escape_seq(u) + "\" alt=\"\" loading=\"lazy\">"@,
        _ => Seq::empty(),
    }
}

pub open spec fn side_html_spec(m: CardMediaView) -> Seq<char> {
    match m {
        CardMediaView::Side(u) => "<img class=\"wechat-card-cover\" src=\""@ + escape_seq(u) + "\" alt=\"\" loading=\"lazy\">"@,
        CardMediaView::Hero(_) => Seq::empty(),
        CardMediaView::Icon => "<span class=\"wechat-card-icon\" aria-hidden=\"true\"></span>"@,
    }
}

impl WechatCardMedia {
    pub fn card_class(&self) -> (r: &'static str)
        ensures
            r@ == card_class_spec(self@),
    {
        match self {
            WechatCardMedia::Hero(_) => "wechat-card has-hero-cover",
            WechatCardMedia::Side(_) => "wechat-card has-cover",
            WechatCardMedia::Icon => "wechat-card",
        }
    }

    pub fn hero_html(&self) -> (r: String)
        ensures
            r@ == hero_html_spec(self@),
    {
        let mut out = String::new();
        match self {
            WechatCardMedia::Hero(u) => {
                push_str(&mut out, "<img class=\"wechat-card-hero\" src=\"");
                let e = html_escape(u.as_str());
                push_str(&mut out, e.as_str());
                push_str(&mut out, "\" alt=\"\" loading=\"lazy\">");
            },
            _ => {},
        }
        out
    }

    pub fn side_html(&self) -> (r: String)
        ensures
            r@ == side_html_spec(self@),
    {
        let mut out = String::new();
        match self {
            WechatCardMedia::Side(u) => {
                push_str(&mut out, "<img class=\"wechat-card-cover\" src=\"");
                let e = html_escape(u.as_str());
                push_str(&mut out, e.as_str());
                push_str(&mut out, "\" alt=\"\" loading=\"lazy\">");
            },
            WechatCardMedia::Hero(_) => {},
            WechatCardMedia::Icon => push_str(&mut out, "<span class=\"wechat-card-icon\" aria-hidden=\"true\"></span>"),
        }
        out
    }
}

/// A wide cover first, then a square thumbnail, a square cover, a wide
/// thumbnail; else the icon.
pub open spec fn select_wechat_media_spec(preview: Option<WechatPreview>) -> CardMediaView {
    match preview {
        None => CardMediaView::Icon,
        Some(p) => {
            let cover = non_empty_spec(p.local_cover_url@);
            let thumb = non_empty_spec(p.local_thumbnail_url@);
            if cover is Some && !p.cover_is_square {
                CardMediaView::Hero(cover.unwrap())
            } else if thumb is Some && p.thumbnail_is_square {
                CardMediaView::Side(thumb.unwrap())
            } else if cover is Some && p.cover_is_square {
                CardMediaView::Side(cover.unwrap())
            } else if thumb is Some && !p.thumbnail_is_square {
                CardMediaView::Hero(thumb.unwrap())
            } else {
                CardMediaView::Icon
            }
        },
    }
}

pub fn select_wechat_media(preview: Option<&WechatPreview>) -> (r: WechatCardMedia)
    ensures
        r@ == select_wechat_media_spec(match preview { Some(p) => Some(*p), None => None }),
{
    match preview {
        None => WechatCardMedia::Icon,
        Some(p) => {
            let cover = non_empty(p.local_cover_url.as_str());
            let thumb = non_empty(p.local_thumbnail_url.as_str());
            match cover {
                Some(c) => if !p.cover_is_square {
                    return WechatCardMedia::Hero(c);
                },
                None => {},
            }
            match thumb {
                Some(t) => if p.thumbnail_is_square {
                    return WechatCardMedia::Side(t);
                },
                None => {},
            }
            let cover = non_empty(p.local_cover_url.as_str());
            match cover {
                Some(c) => if p.cover_is_square {
                    return WechatCardMedia::Side(c);
                },
                None => {},
            }
            let thumb = non_empty(p.local_thumbnail_url.as_str());
            match thumb {
                Some(t) => if !p.thumbnail_is_square {
                    return WechatCardMedia::Hero(t);
                },
                None => {},
            }
            WechatCardMedia::Icon
        },
    }
}

/// The preview a card shows for `url`, as the cache decides without fetching.
pub open spec fn card_preview(store: Option<(Seq<(String, WechatPreview)>, Seq<String>)>, url: Seq<char>) -> Option<WechatPreview> {
    match store {
        Some((entries, failed)) => {
            let (key, cached, decision) = get_spec(entries, failed, url);
            if decision == 1 { None } else { cached }
        },
        None => None,
    }
}

/// The share card of an article link: `plain` is the link's text.
pub open spec fn wechat_card_spec(url: Seq<char>, plain: Seq<char>, preview: Option<WechatPreview>) -> Seq<char> {
    let title_attr = match non_empty_spec(plain) {
        Some(t) => if !should_use_default_wechat_title_spec(t, url) {
            " title=\""@ + escape_seq(t) + "\""@
        } else {
            Seq::empty()
        },
        None => Seq::empty(),
    };
    let fallback = if preview is Some { "微信公众号文章"@ } else { "无法访问该推送"@ };
    let field = |f: spec_fn(WechatPreview) -> Seq<char>| match preview {
        Some(p) => non_empty_spec(f(p)),
        None => None,
    };
    let title_html = match field(|p: WechatPreview| p.title@) {
        Some(t) => escape_seq(t),
        None => fallback,
    };
    let description_html = match field(|p: WechatPreview| p.description@) {
        Some(d) => "<span class=\"wechat-card-description\">"@ + escape_seq(compact_preview_text_spec(d, 120)) + "</span>"@,
        None => Seq::empty(),
    };
    let account = match field(|p: WechatPreview| p.account_name@) {
        Some(a) => a,
        None => "微信公众平台"@,
    };
    let avatar_html = match field(|p: WechatPreview| p.local_avatar_url@) {
        Some(a) => "<span class=\"wechat-card-avatar\" style=\"background-image:url('"@ + escape_seq(a)
            + "')\" aria-hidden=\"true\"></span>"@,
        None => Seq::empty(),
    };
    let media = select_wechat_media_spec(preview);
    "<a class=\""@ + card_class_spec(media) + "\""@ + title_attr + " href=\""@ + escape_seq(url)
        + "\" target=\"_blank\" rel=\"noopener\">"@ + hero_html_spec(media)
        + "<span class=\"wechat-card-body\"><span class=\"wechat-card-title\">"@ + title_html + "</span>"@
        + description_html + "<span class=\"wechat-card-meta\">"@ + avatar_html
        + "<span class=\"wechat-card-badge\">公众号</span><span class=\"wechat-card-source\">"@
        + escape_seq(account) + "</span></span></span>"@ + side_html_spec(media) + "</a>"@
}

/// The trimmed field of the preview, where there is a preview and the field
/// is not blank.
fn preview_field(preview: &Option<WechatPreview>, which: u8) -> (r: Option<String>)
    ensures
        opt_seq_view(r) == match *preview {
            Some(p) => non_empty_spec(
                if which == 0 { p.title@ } else if which == 1 { p.description@ } else if which == 2 {
                    p.account_name@
                } else {
                    p.local_avatar_url@
                },
            ),
            None => None,
        },
{
    match preview {
        Some(p) => non_empty(
            if which == 0 { p.title.as_str() } else if which == 1 { p.description.as_str() } else if which == 2 {
                p.account_name.as_str()
            } else {
                p.local_avatar_url.as_str()
            },
        ),
        None => None,
    }
}

/// The share card of a WeChat article link, from the link's inner events
/// `evs[lo..hi]` and the cached preview.
pub fn render_wechat_card(url: &str, evs: &Vec<MdEvent>, lo: usize, hi: usize, opts: &RenderOptions) -> (r: String)
    requires
        lo <= hi <= evs@.len(),
    ensures
        r@ == wechat_card_spec(url@, plain_text(events_view(evs@), lo as int, hi as int), card_preview(opts@.wechat_previews, url@)),
{
    let plain = collect_plain_text(evs, lo, hi);
    let preview: Option<WechatPreview> = match opts.wechat_previews {
        Some(store) => store.preview_for(url),
        None => None,
    };
    let ghost pv = card_preview(opts@.wechat_previews, url@);
    assert(preview == pv);
    let mut title_attr = String::new();
    match non_empty(plain.as_str()) {
        Some(t) => if !should_use_default_wechat_title(t.as_str(), url) {
            push_str(&mut title_attr, " title=\"");
            let e = html_escape(t.as_str());
            push_str(&mut title_attr, e.as_str());
            push_str(&mut title_attr, "\"");
        },
        None => {},
    }
    let fallback = if preview.is_some() { "微信公众号文章" } else { "无法访问该推送" };
    let title_html = match preview_field(&preview, 0) {
        Some(t) => html_escape(t.as_str()),
        None => fallback.to_string(),
    };
    let mut description_html = String::new();
    match preview_field(&preview, 1) {
        Some(d) => {
            push_str(&mut description_html, "<span class=\"wechat-card-description\">");
            let c = compact_preview_text(d.as_str(), 120);
            let e = html_escape(c.as_str());
            push_str(&mut description_html, e.as_str());
            push_str(&mut description_html, "</span>");
        },
        None => {},
    }
    let account = match preview_field(&preview, 2) {
        Some(a) => a,
        None => "微信公众平台".to_string(),
    };
    let mut avatar_html = String::new();
    match preview_field(&preview, 3) {
        Some(a) => {
            push_str(&mut avatar_html, "<span class=\"wechat-card-avatar\" style=\"background-image:url('");
            let e = html_escape(a.as_str());
            push_str(&mut avatar_html, e.as_str());
            push_str(&mut avatar_html, "')\" aria-hidden=\"true\"></span>");
        },
        None => {},
    }
    let media = select_wechat_media(preview.as_ref());
    let mut out = String::new();
    push_str(&mut out, "<a class=\"");
    push_str(&mut out, media.card_class());
    push_str(&mut out, "\"");
    push_str(&mut out, title_attr.as_str());
    push_str(&mut out, " href=\"");
    let eu = html_escape(url);
    push_str(&mut out, eu.as_str());
    push_str(&mut out, "\" target=\"_blank\" rel=\"noopener\">");
    let hero = media.hero_html();
    push_str(&mut out, hero.as_str());
    push_str(&mut out, "<span class=\"wechat-card-body\"><span class=\"wechat-card-title\">");
    push_str(&mut out, title_html.as_str());
    push_str(&mut out, "</span>");
    push_str(&mut out, description_html.as_str());
    push_str(&mut out, "<span class=\"wechat-card-meta\">");
    push_str(&mut out, avatar_html.as_str());
    push_str(&mut out, "<span class=\"wechat-card-badge\">公众号</span><span class=\"wechat-card-source\">");
    let ea = html_escape(account.as_str());
    push_str(&mut out, ea.as_str());
    push_str(&mut out, "</span></span></span>");
    let side = media.side_html();
    push_str(&mut out, side.as_str());
    push_str(&mut out, "</a>");
    out
}

// ---------------------------------------------------------------- options

/// Which features are active while rendering.
pub struct RenderOptions<'a> {
    pub enable_math: bool,
    pub enable_toc: bool,
    pub code_theme: String,
    pub wechat_previews: Option<&'a WechatPreviewStore>,
}

/// The options as plain values; the cache is seen through what it holds.
pub struct RenderOptionsView {
    pub enable_math: bool,
    pub enable_toc: bool,
    pub code_theme: Seq<char>,
    pub wechat_previews: Option<(Seq<(String, WechatPreview)>, Seq<String>)>,
}

impl View for RenderOptions<'_> {
    type V = RenderOptionsView;

    open spec fn view(&self) -> RenderOptionsView {
        RenderOptionsView {
            enable_math: self.enable_math,
            enable_toc: self.enable_toc,
            code_theme: self.code_theme@,
            wechat_previews: match self.wechat_previews {
                Some(store) => Some((store.entries_spec(), store.failed_spec())),
                None => None,
            },
        }
    }
}

/// Rendered HTML and the headings collected for the table of contents.
pub struct RenderResult {
    pub html: String,
    pub toc: Vec<TocItem>,
}

// ---------------------------------------------------------------- rendering

/// What the renderer does at event `i`: the events afterwards, the heading
/// collected `(level, id, text)` if any, and the index it goes on from.
pub open spec fn render_step(evs: Seq<MdEventView>, i: int, o: RenderOptionsView) -> (
    Seq<MdEventView>,
    Option<(u8, Seq<char>, Seq<char>)>,
    int,
) {
    match evs[i] {
        MdEventView::InlineMath(l) => if o.enable_math {
            (evs.update(i, MdEventView::Html(render_inline_spec(l))), None, i + 1)
        } else {
            (evs, None, i + 1)
        },
        MdEventView::DisplayMath(l) => if o.enable_math {
            (evs.update(i, MdEventView::Html(render_display_spec(l))), None, i + 1)
        } else {
            (evs, None, i + 1)
        },
        MdEventView::FencedCodeStart(info) => {
            let stop = match code_block_end(evs, i + 1) {
                Some(j) => j,
                None => evs.len() as int,
            };
            let end = match code_block_end(evs, i + 1) {
                Some(j) => j,
                None => i + 1,
            };
            let html = fence_html(code_text(evs, i + 1, stop), info, o.enable_math, o.code_theme);
            (blank(evs.update(i, MdEventView::Html(html)), i + 1, end), None, end + 1)
        },
        MdEventView::HeadingStart(level) => if o.enable_toc {
            let j = heading_end(evs, i + 1);
            let text = heading_text(evs, i + 1, j);
            let id = slugify_spec(text);
            let opened = evs.update(i, MdEventView::Html(heading_open(level, id)));
            let closed = if j < evs.len() { opened.update(j, MdEventView::Html(heading_close(level))) } else { opened };
            (closed, Some((level, id, text)), i + 1)
        } else {
            (evs, None, i + 1)
        },
        MdEventView::LinkStart(url) => if is_wechat_mp_link_spec(url) {
            match link_end(evs, i + 1, 0) {
                Some(end) => {
                    let card = wechat_card_spec(url, plain_text(evs, i + 1, end), card_preview(o.wechat_previews, url));
                    (blank(evs.update(i, MdEventView::Html(card)), i + 1, end), None, end + 1)
                },
                None => (evs, None, i + 1),
            }
        } else {
            (evs, None, i + 1)
        },
        _ => (evs, None, i + 1),
    }
}

/// The events and headings after the renderer has gone over `evs` from `i`
/// on, with the headings `toc` collected before.
pub open spec fn render_from(evs: Seq<MdEventView>, i: int, toc: Seq<(u8, Seq<char>, Seq<char>)>, o: RenderOptionsView) -> (
    Seq<MdEventView>,
    Seq<(u8, Seq<char>, Seq<char>)>,
)
    decreases evs.len() - i,
{
    if i < 0 || i >= evs.len() {
        (evs, toc)
    } else {
        let (next_evs, item, next) = render_step(evs, i, o);
        let next_toc = match item {
            Some(t) => toc.push(t),
            None => toc,
        };
        if i < next && next <= evs.len() && next_evs.len() == evs.len() {
            render_from(next_evs, next, next_toc, o)
        } else {
            (next_evs, next_toc)
        }
    }
}

/// The raw HTML the renderer put in place of events.
pub open spec fn replaced_view(evs: Seq<MdEventView>) -> Seq<Option<Seq<char>>> {
    evs.map_values(|e: MdEventView| match e {
        MdEventView::Html(h) => Some(h),
        _ => None,
    })
}

/// The HTML of `markdown` and its headings `(level, id, text)`.
pub open spec fn render_markdown_spec(markdown: Seq<char>, o: RenderOptionsView) -> (Seq<char>, Seq<(u8, Seq<char>, Seq<char>)>) {
    let options = markdown_options(o.enable_math);
    let (evs, toc) = render_from(markdown_events(markdown, options), 0, Seq::empty(), o);
    (markdown_html(markdown, options, replaced_view(evs)), toc)
}

pub proof fn lemma_render_step(evs: Seq<MdEventView>, i: int, o: RenderOptionsView)
    requires
        0 <= i < evs.len(),
    ensures
        render_step(evs, i, o).0.len() == evs.len(),
        render_step(evs, i, o).2 > i,
        render_step(evs, i, o).1 matches Some(t) ==> t.1 == slugify_spec(t.2),
{
    match evs[i] {
        MdEventView::FencedCodeStart(_) => lemma_code_block_end(evs, i + 1),
        MdEventView::LinkStart(_) => lemma_link_end(evs, i + 1, 0),
        MdEventView::HeadingStart(_) => lemma_heading_end(evs, i + 1),
        _ => {},
    }
}

/// One step of `render_from`.
pub proof fn lemma_render_from_step(
    evs: Seq<MdEventView>,
    i: int,
    toc: Seq<(u8, Seq<char>, Seq<char>)>,
    o: RenderOptionsView,
    to: int,
)
    requires
        0 <= i < evs.len(),
        i < to <= evs.len(),
        to == render_step(evs, i, o).2 || (to == evs.len() && render_step(evs, i, o).2 >= evs.len()),
    ensures
        ({
            let (next_evs, item, next) = render_step(evs, i, o);
            let next_toc = match item {
                Some(t) => toc.push(t),
                None => toc,
            };
            render_from(evs, i, toc, o) == render_from(next_evs, to, next_toc, o)
        }),
{
    lemma_render_step(evs, i, o);
    reveal_with_fuel(render_from, 2);
}

/// Headings collected from `i` on keep ids in slug form when those
/// collected before have them.
proof fn lemma_render_from_slugs(evs: Seq<MdEventView>, i: int, toc: Seq<(u8, Seq<char>, Seq<char>)>, o: RenderOptionsView)
    requires
        forall|k: int| 0 <= k < toc.len() ==> is_slug(#[trigger] toc[k].1),
    ensures
        forall|k: int| 0 <= k < render_from(evs, i, toc, o).1.len() ==> is_slug(#[trigger] render_from(evs, i, toc, o).1[k].1),
    decreases evs.len() - i,
{
    if 0 <= i < evs.len() {
        lemma_render_step(evs, i, o);
        let (next_evs, item, next) = render_step(evs, i, o);
        let next_toc = match item {
            Some(t) => toc.push(t),
            None => toc,
        };
        match item {
            Some(t) => {
                lemma_slugify_is_slug(t.2);
                assert forall|k: int| 0 <= k < next_toc.len() implies is_slug(#[trigger] next_toc[k].1) by {
                    if k < toc.len() {
                        assert(next_toc[k] == toc[k]);
                    }
                }
            },
            None => {},
        }
        assert(forall|k: int| 0 <= k < next_toc.len() ==> is_slug(#[trigger] next_toc[k].1));
        if i < next <= evs.len() && next_evs.len() == evs.len() {
            lemma_render_from_slugs(next_evs, next, next_toc, o);
            assert(render_from(evs, i, toc, o) == render_from(next_evs, next, next_toc, o));
        } else {
            assert(render_from(evs, i, toc, o) == (next_evs, next_toc));
        }
    }
}

/// Every heading of a rendered text gets an id in slug form: lower-case
/// letters, digits and wide characters, with single `-` between them.
pub proof fn lemma_heading_ids_are_slugs(markdown: Seq<char>, o: RenderOptionsView)
    ensures
        forall|k: int| 0 <= k < render_markdown_spec(markdown, o).1.len() ==> is_slug(#[trigger] render_markdown_spec(markdown, o).1[k].1),
{
    lemma_render_from_slugs(markdown_events(markdown, markdown_options(o.enable_math)), 0, Seq::empty(), o);
}

proof fn lemma_render_from_toc(evs: Seq<MdEventView>, i: int, toc: Seq<(u8, Seq<char>, Seq<char>)>, o: RenderOptionsView)
    requires
        forall|k: int| 0 <= k < toc.len() ==> (#[trigger] toc[k]).1 == slugify_spec(toc[k].2),
    ensures
        forall|k: int| 0 <= k < render_from(evs, i, toc, o).1.len()
            ==> (#[trigger] render_from(evs, i, toc, o).1[k]).1 == slugify_spec(render_from(evs, i, toc, o).1[k].2),
        !o.enable_toc ==> render_from(evs, i, toc, o).1 == toc,
    decreases evs.len() - i,
{
    if 0 <= i < evs.len() {
        lemma_render_step(evs, i, o);
        let (next_evs, item, next) = render_step(evs, i, o);
        let next_toc = match item {
            Some(t) => toc.push(t),
            None => toc,
        };
        if !o.enable_toc {
            assert(item is None);
        }
        match item {
            Some(t) => {
                assert forall|k: int| 0 <= k < next_toc.len() implies (#[trigger] next_toc[k]).1 == slugify_spec(next_toc[k].2) by {
                    if k < toc.len() {
                        assert(next_toc[k] == toc[k]);
                    }
                }
            },
            None => {},
        }
        if i < next <= evs.len() && next_evs.len() == evs.len() {
            lemma_render_from_toc(next_evs, next, next_toc, o);
            assert(render_from(evs, i, toc, o) == render_from(next_evs, next, next_toc, o));
        } else {
            assert(render_from(evs, i, toc, o) == (next_evs, next_toc));
        }
    }
}

/// The table of contents of a rendered text: empty when the table of
/// contents is off; otherwise each entry's id is `slugify` of its text (the
/// heading's text and inline code).
pub proof fn lemma_toc_entries(markdown: Seq<char>, o: RenderOptionsView)
    ensures
        !o.enable_toc ==> render_markdown_spec(markdown, o).1.len() == 0,
        forall|k: int| 0 <= k < render_markdown_spec(markdown, o).1.len()
            ==> (#[trigger] render_markdown_spec(markdown, o).1[k]).1 == slugify_spec(render_markdown_spec(markdown, o).1[k].2),
{
    lemma_render_from_toc(markdown_events(markdown, markdown_options(o.enable_math)), 0, Seq::empty(), o);
}

proof fn lemma_render_step_levels(evs: Seq<MdEventView>, i: int, o: RenderOptionsView)
    requires
        0 <= i < evs.len(),
        heading_levels_ok(evs),
    ensures
        heading_levels_ok(render_step(evs, i, o).0),
        render_step(evs, i, o).1 matches Some(t) ==> 1 <= t.0 <= 6,
{
    let r = render_step(evs, i, o).0;
    lemma_render_step(evs, i, o);
    assert forall|k: int| 0 <= k < r.len() implies (#[trigger] r[k] matches MdEventView::HeadingStart(l) ==> 1 <= l <= 6) by {
        assert(r[k] is Html || r[k] == evs[k]) by {
            match evs[i] {
                MdEventView::FencedCodeStart(info) => {
                    let stop = match code_block_end(evs, i + 1) {
                        Some(j) => j,
                        None => evs.len() as int,
                    };
                    let end = match code_block_end(evs, i + 1) {
                        Some(j) => j,
                        None => i + 1,
                    };
                    let html = fence_html(code_text(evs, i + 1, stop), info, o.enable_math, o.code_theme);
                    let u = evs.update(i, MdEventView::Html(html));
                    assert(r == blank(u, i + 1, end));
                    if !(i + 1 <= k <= end) && k != i {
                        assert(r[k] == u[k]);
                    }
                },
                MdEventView::HeadingStart(level) => {
                    if o.enable_toc {
                        lemma_heading_end(evs, i + 1);
                        let j = heading_end(evs, i + 1);
                        let id = slugify_spec(heading_text(evs, i + 1, j));
                        let opened = evs.update(i, MdEventView::Html(heading_open(level, id)));
                        let closed = if j < evs.len() { opened.update(j, MdEventView::Html(heading_close(level))) } else { opened };
                        assert(r == closed);
                        if k != i && k != j {
                            assert(closed[k] == evs[k]);
                        }
                    }
                },
                MdEventView::LinkStart(url) => {
                    if is_wechat_mp_link_spec(url) {
                        match link_end(evs, i + 1, 0) {
                            Some(end) => {
                                let card = wechat_card_spec(url, plain_text(evs, i + 1, end), card_preview(o.wechat_previews, url));
                                let u = evs.update(i, MdEventView::Html(card));
                                assert(r == blank(u, i + 1, end));
                                if !(i + 1 <= k <= end) && k != i {
                                    assert(r[k] == u[k]);
                                }
                            },
                            None => {},
                        }
                    }
                },
                MdEventView::InlineMath(l) => {
                    if o.enable_math && k != i {
                        assert(r[k] == evs[k]);
                    }
                },
                MdEventView::DisplayMath(l) => {
                    if o.enable_math && k != i {
                        assert(r[k] == evs[k]);
                    }
                },
                _ => {},
            }
        }
    }
    if evs[i] is HeadingStart {
        assert(evs[i] matches MdEventView::HeadingStart(l) ==> 1 <= l <= 6);
    }
}

fn code_block_end_exec(evs: &Vec<MdEvent>, k: usize) -> (r: Option<usize>)
    ensures
        r matches Some(j) ==> code_block_end(events_view(evs@), k as int) == Some(j as int),
        r is None ==> code_block_end(events_view(evs@), k as int) is None,
{
    let ghost ev = events_view(evs@);
    let mut j = k;
    while j < evs.len()
        invariant
            ev == events_view(evs@),
            k <= j,
            code_block_end(ev, k as int) == code_block_end(ev, j as int),
        decreases evs@.len() - j,
    {
        if let MdEvent::CodeBlockEnd = evs[j] {
            return Some(j);
        }
        j = j + 1;
    }
    None
}

fn code_text_exec(evs: &Vec<MdEvent>, lo: usize, hi: usize) -> (r: String)
    requires
        lo <= hi <= evs@.len(),
    ensures
        r@ == code_text(events_view(evs@), lo as int, hi as int),
{
    let ghost ev = events_view(evs@);
    let mut out = String::new();
    let mut k = lo;
    while k < hi
        invariant
            ev == events_view(evs@),
            lo <= k <= hi <= evs@.len(),
            out@ == code_text(ev, lo as int, k as int),
        decreases hi - k,
    {
        if let MdEvent::Text(t) = &evs[k] {
            if str_non_empty(out.as_str()) {
                push_char(&mut out, '\n');
            }
            push_str(&mut out, t.as_str());
        }
        k = k + 1;
    }
    out
}

fn first_word_exec(s: &str) -> (r: String)
    ensures
        r@ == first_word(s@),
{
    let cs = chars_of(s);
    let words = split_words(&cs);
    if words.len() > 0 {
        string_of_range(&cs, words[0].0, words[0].1)
    } else {
        String::new()
    }
}

/// The HTML of a fenced code block.
fn fence_html_exec(code: &str, info: &str, enable_math: bool, theme: &str) -> (r: String)
    ensures
        r@ == fence_html(code@, info@, enable_math, theme@),
{
    let lang = first_word_exec(info);
    if str_eq(lang.as_str(), "mermaid") {
        let c = if enable_math { normalize_mermaid_inline_math(code) } else { code.to_string() };
        let mut out = String::new();
        push_str(&mut out, "<div class=\"mermaid-container\"><pre class=\"mermaid\">");
        let e = html_escape(c.as_str());
        push_str(&mut out, e.as_str());
        push_str(&mut out, "</pre></div>");
        out
    } else {
        highlight(code, info, theme)
    }
}

/// Replaces the events at `lo..=hi` by empty HTML.
fn blank_exec(evs: &mut Vec<MdEvent>, lo: usize, hi: usize)
    ensures
        events_view(final(evs)@) == blank(events_view(old(evs)@), lo as int, hi as int),
{
    let ghost start = events_view(evs@);
    let mut k = lo;
    while k <= hi && k < evs.len()
        invariant
            lo <= k,
            evs@.len() == start.len(),
            forall|j: int| 0 <= j < evs@.len() ==> #[trigger] evs@[j]@ == if lo <= j < k && j <= hi {
                MdEventView::Html(Seq::empty())
            } else {
                start[j]
            },
        decreases evs@.len() - k,
    {
        evs.set(k, MdEvent::Html(String::new()));
        k = k + 1;
    }
    assert(events_view(evs@) =~= blank(start, lo as int, hi as int));
}

fn heading_end_exec(evs: &Vec<MdEvent>, k: usize) -> (r: usize)
    requires
        k <= evs@.len(),
    ensures
        r as int == heading_end(events_view(evs@), k as int),
{
    let ghost ev = events_view(evs@);
    let mut j = k;
    while j < evs.len()
        invariant
            ev == events_view(evs@),
            k <= j <= evs@.len(),
            heading_end(ev, k as int) == heading_end(ev, j as int),
        decreases evs@.len() - j,
    {
        if let MdEvent::HeadingEnd = evs[j] {
            return j;
        }
        j = j + 1;
    }
    j
}

fn heading_text_exec(evs: &Vec<MdEvent>, lo: usize, hi: usize) -> (r: String)
    requires
        lo <= hi <= evs@.len(),
    ensures
        r@ == heading_text(events_view(evs@), lo as int, hi as int),
{
    let ghost ev = events_view(evs@);
    let mut out = String::new();
    let mut k = lo;
    while k < hi
        invariant
            ev == events_view(evs@),
            lo <= k <= hi <= evs@.len(),
            out@ == heading_text(ev, lo as int, k as int),
        decreases hi - k,
    {
        match &evs[k] {
            MdEvent::Text(t) => push_str(&mut out, t.as_str()),
            MdEvent::Code(t) => push_str(&mut out, t.as_str()),
            _ => {},
        }
        k = k + 1;
    }
    out
}

fn link_end_exec(evs: &Vec<MdEvent>, k: usize) -> (r: Option<usize>)
    ensures
        r matches Some(j) ==> link_end(events_view(evs@), k as int, 0) == Some(j as int),
        r is None ==> link_end(events_view(evs@), k as int, 0) is None,
{
    let ghost ev = events_view(evs@);
    let mut depth: usize = 0;
    let mut j = k;
    while j < evs.len()
        invariant
            ev == events_view(evs@),
            k <= j,
            depth <= j - k,
            link_end(ev, k as int, 0) == link_end(ev, j as int, depth as nat),
        decreases evs@.len() - j,
    {
        match &evs[j] {
            MdEvent::LinkStart(_) => {
                depth = depth + 1;
            },
            MdEvent::LinkEnd => {
                if depth == 0 {
                    return Some(j);
                }
                depth = depth - 1;
            },
            _ => {},
        }
        j = j + 1;
    }
    None
}

fn push_heading_level(out: &mut String, level: u8)
    ensures
        final(out)@ == old(out)@ + decimal(level as nat),
{
    let l: usize = level as usize;
    push_decimal(out, l);
}

/// The heading at `i`: its opening and closing events replaced by tags with
/// an `id`, and the heading returned for the table of contents.
fn heading_step_exec(evs: &mut Vec<MdEvent>, i: usize, level: u8) -> (t: TocItem)
    requires
        i < old(evs)@.len(),
    ensures
        ({
            let ev = events_view(old(evs)@);
            let j = heading_end(ev, i + 1);
            let text = heading_text(ev, i + 1, j);
            let id = slugify_spec(text);
            let opened = ev.update(i as int, MdEventView::Html(heading_open(level, id)));
            let closed = if j < ev.len() { opened.update(j, MdEventView::Html(heading_close(level))) } else { opened };
            &&& events_view(final(evs)@) == closed
            &&& toc_item_view(t) == (level, id, text)
        }),
{
    let ghost ev = events_view(evs@);
    let n = evs.len();
    let j = heading_end_exec(evs, i + 1);
    proof {
        lemma_heading_end(ev, i + 1);
    }
    let text = heading_text_exec(evs, i + 1, j);
    let id = slugify(text.as_str());
    let mut open = String::new();
    push_str(&mut open, "<h");
    push_heading_level(&mut open, level);
    push_str(&mut open, " id=\"");
    push_str(&mut open, id.as_str());
    push_str(&mut open, "\">");
    evs.set(i, MdEvent::Html(open));
    let ghost opened = ev.update(i as int, MdEventView::Html(heading_open(level, id@)));
    assert(events_view(evs@) =~= opened);
    if j < n {
        let mut close = String::new();
        push_str(&mut close, "</h");
        push_heading_level(&mut close, level);
        push_str(&mut close, ">");
        evs.set(j, MdEvent::Html(close));
        assert(events_view(evs@) =~= opened.update(j as int, MdEventView::Html(heading_close(level))));
    }
    TocItem { level, id, text }
}

/// The fenced code block starting at `i` replaced by its HTML; returns the
/// index after the block.
fn fence_step_exec(evs: &mut Vec<MdEvent>, i: usize, info: &str, opts: &RenderOptions) -> (next: usize)
    requires
        i < old(evs)@.len(),
    ensures
        ({
            let ev = events_view(old(evs)@);
            let stop = match code_block_end(ev, i + 1) {
                Some(j) => j,
                None => ev.len() as int,
            };
            let end = match code_block_end(ev, i + 1) {
                Some(j) => j,
                None => i + 1,
            };
            let html = fence_html(code_text(ev, i + 1, stop), info@, opts@.enable_math, opts@.code_theme);
            &&& events_view(final(evs)@) == blank(ev.update(i as int, MdEventView::Html(html)), i + 1, end)
            &&& (next == end + 1 || (next == ev.len() && end + 1 >= ev.len()))
            &&& i < next <= ev.len()
        }),
{
    let ghost ev = events_view(evs@);
    let n = evs.len();
    let found = code_block_end_exec(evs, i + 1);
    proof {
        lemma_code_block_end(ev, i + 1);
    }
    let stop = match found {
        Some(j) => j,
        None => n,
    };
    let end = match found {
        Some(j) => j,
        None => i + 1,
    };
    let code = code_text_exec(evs, i + 1, stop);
    let html = fence_html_exec(code.as_str(), info, opts.enable_math, opts.code_theme.as_str());
    evs.set(i, MdEvent::Html(html));
    assert(events_view(evs@) =~= ev.update(i as int, MdEventView::Html(html@)));
    blank_exec(evs, i + 1, end);
    if end < n {
        end + 1
    } else {
        n
    }
}

/// The WeChat article link starting at `i` replaced by its card, where the
/// link ends; returns the index to go on from.
fn link_step_exec(evs: &mut Vec<MdEvent>, i: usize, url: &str, opts: &RenderOptions) -> (next: usize)
    requires
        i < old(evs)@.len(),
    ensures
        ({
            let ev = events_view(old(evs)@);
            match link_end(ev, i + 1, 0) {
                Some(end) => {
                    let card = wechat_card_spec(url@, plain_text(ev, i + 1, end), card_preview(opts@.wechat_previews, url@));
                    &&& events_view(final(evs)@) == blank(ev.update(i as int, MdEventView::Html(card)), i + 1, end)
                    &&& next == end + 1
                    &&& next <= ev.len()
                },
                None => events_view(final(evs)@) == ev && next == i + 1,
            }
        }),
        i < next <= old(evs)@.len(),
{
    let ghost ev = events_view(evs@);
    let n = evs.len();
    match link_end_exec(evs, i + 1) {
        Some(end) => {
            proof {
                lemma_link_end(ev, i + 1, 0);
            }
            assert(end < n);
            let card = render_wechat_card(url, evs, i + 1, end, opts);
            evs.set(i, MdEvent::Html(card));
            assert(events_view(evs@) =~= ev.update(i as int, MdEventView::Html(card@)));
            blank_exec(evs, i + 1, end);
            end + 1
        },
        None => i + 1,
    }
}

/// Carries out `render_step` at `i`, returning the index to go on from and
/// the heading collected.
#[verifier::rlimit(40)]
fn render_step_exec(evs: &mut Vec<MdEvent>, i: usize, opts: &RenderOptions) -> (r: (usize, Option<TocItem>))
    requires
        i < old(evs)@.len(),
    ensures
        ({
            let (next_evs, item, next) = render_step(events_view(old(evs)@), i as int, opts@);
            &&& events_view(final(evs)@) == next_evs
            &&& (r.0 as int == next || (r.0 == final(evs)@.len() && next >= final(evs)@.len()))
            &&& i < r.0 <= final(evs)@.len()
            &&& match r.1 {
                Some(t) => item == Some(toc_item_view(t)),
                None => item is None,
            }
        }),
{
    let ghost ev = events_view(evs@);
    let n = evs.len();
    assert(ev[i as int] == evs@[i as int]@);
    proof {
        lemma_render_step(ev, i as int, opts@);
    }
    match &evs[i] {
        MdEvent::InlineMath(l) => {
            if opts.enable_math {
                let h = render_inline(l.as_str());
                evs.set(i, MdEvent::Html(h));
                assert(events_view(evs@) =~= ev.update(i as int, MdEventView::Html(render_inline_spec(ev[i as int]->InlineMath_0))));
            }
            (i + 1, None)
        },
        MdEvent::DisplayMath(l) => {
            if opts.enable_math {
                let h = render_display(l.as_str());
                evs.set(i, MdEvent::Html(h));
                assert(events_view(evs@) =~= ev.update(i as int, MdEventView::Html(render_display_spec(ev[i as int]->DisplayMath_0))));
            }
            (i + 1, None)
        },
        MdEvent::FencedCodeStart(info) => {
            let info = info.clone();
            let next = fence_step_exec(evs, i, info.as_str(), opts);
            (next, None)
        },
        MdEvent::HeadingStart(level) => {
            if !opts.enable_toc {
                return (i + 1, None);
            }
            let level = *level;
            let t = heading_step_exec(evs, i, level);
            (i + 1, Some(t))
        },
        MdEvent::LinkStart(url) => {
            let url = url.clone();
            if !is_wechat_mp_link(url.as_str()) {
                return (i + 1, None);
            }
            let next = link_step_exec(evs, i, url.as_str(), opts);
            (next, None)
        },
        _ => (i + 1, None),
    }
}

/// Parser options for a render: tables, strikethrough, task lists, and math
/// where it is on.
fn options_for(enable_math: bool) -> (r: u32)
    ensures
        r == markdown_options(enable_math),
{
    if enable_math { 1050 } else { 26 }
}

/// Renders markdown to HTML, rendering math, highlighting fenced code,
/// giving headings an `id` (collected for the table of contents) and turning
/// WeChat article links into cards.
pub fn render_markdown(markdown: &str, opts: &RenderOptions) -> (r: RenderResult)
    ensures
        (r.html@, toc_items_view(r.toc@)) == render_markdown_spec(markdown@, opts@),
        forall|k: int| 0 <= k < r.toc@.len() ==> 1 <= (#[trigger] r.toc@[k]).level <= 6,
{
    let options = options_for(opts.enable_math);
    let mut evs = parse_events(markdown, options);
    let ghost start = events_view(evs@);
    let mut toc: Vec<TocItem> = Vec::new();
    let mut i: usize = 0;
    assert(toc_items_view(toc@) =~= Seq::empty());
    while i < evs.len()
        invariant
            evs@.len() == start.len(),
            render_from(events_view(evs@), i as int, toc_items_view(toc@), opts@)
                == render_from(start, 0, Seq::empty(), opts@),
            heading_levels_ok(events_view(evs@)),
            forall|k: int| 0 <= k < toc@.len() ==> 1 <= (#[trigger] toc@[k]).level <= 6,
        decreases evs@.len() - i,
    {
        let ghost ev = events_view(evs@);
        let ghost tv = toc_items_view(toc@);
        proof {
            lemma_render_step(ev, i as int, opts@);
            lemma_render_step_levels(ev, i as int, opts@);
        }
        let ghost old_toc = toc@;
        let (next, item) = render_step_exec(&mut evs, i, opts);
        proof {
            lemma_render_from_step(ev, i as int, tv, opts@, next as int);
        }
        match item {
            Some(t) => {
                toc.push(t);
                assert(toc_items_view(toc@) =~= tv.push(toc_item_view(t)));
                assert(forall|k: int| 0 <= k < old_toc.len() ==> toc@[k] == old_toc[k]);
            },
            None => {},
        }
        i = next;
    }
    let mut replaced: Vec<Option<String>> = Vec::new();
    let mut k: usize = 0;
    while k < evs.len()
        invariant
            k <= evs@.len(),
            opts_view(replaced@) =~= replaced_view(events_view(evs@)).subrange(0, k as int),
        decreases evs@.len() - k,
    {
        let ghost before = replaced@;
        match &evs[k] {
            MdEvent::Html(h) => {
                let c = h.clone();
                assert(c@ == h@);
                replaced.push(Some(c));
            },
            _ => replaced.push(None),
        }
        assert(opts_view(replaced@) =~= opts_view(before).push(replaced_view(events_view(evs@))[k as int]));
        assert(replaced_view(events_view(evs@)).subrange(0, k + 1) =~= replaced_view(events_view(evs@)).subrange(0, k as int).push(replaced_view(events_view(evs@))[k as int]));
        k = k + 1;
    }
    assert(replaced_view(events_view(evs@)).subrange(0, evs@.len() as int) =~= replaced_view(events_view(evs@)));
    let html = events_html(markdown, options, &replaced);
    RenderResult { html, toc }
}

/// The WeChat article links of `markdown`, in order (the pages a render
/// would show as cards).
pub open spec fn wechat_link_urls_spec(evs: Seq<MdEventView>) -> Seq<Seq<char>>
    decreases evs.len(),
{
    if evs.len() == 0 {
        Seq::empty()
    } else {
        let rest = wechat_link_urls_spec(evs.drop_last());
        match evs.last() {
            MdEventView::LinkStart(u) => if is_wechat_mp_link_spec(u) { rest.push(u) } else { rest },
            _ => rest,
        }
    }
}

pub fn wechat_link_urls(markdown: &str, enable_math: bool) -> (r: Vec<String>)
    ensures
        r@.map_values(|s: String| s@) == wechat_link_urls_spec(markdown_events(markdown@, markdown_options(enable_math))),
{
    let evs = parse_events(markdown, options_for(enable_math));
    let ghost ev = events_view(evs@);
    let mut out: Vec<String> = Vec::new();
    let mut k: usize = 0;
    while k < evs.len()
        invariant
            ev == events_view(evs@),
            k <= evs@.len(),
            out@.map_values(|s: String| s@) == wechat_link_urls_spec(ev.subrange(0, k as int)),
        decreases evs@.len() - k,
    {
        let ghost before = out@;
        assert(ev.subrange(0, k + 1).drop_last() =~= ev.subrange(0, k as int));
        if let MdEvent::LinkStart(u) = &evs[k] {
            if is_wechat_mp_link(u.as_str()) {
                out.push(u.clone());
                assert(out@.map_values(|s: String| s@) =~= before.map_values(|s: String| s@).push(u@));
            }
        }
        k = k + 1;
    }
    assert(ev.subrange(0, evs@.len() as int) =~= ev);
    out
}

// ---------------------------------------------------------------- headings and the table of contents

/// Every heading of `evs` from index `i` on, in order, as the table of
/// contents lists it: `(level, slugify(text), text)`, the text being the
/// heading's text and inline code.
pub open spec fn all_headings_from(evs: Seq<MdEventView>, i: int) -> Seq<(u8, Seq<char>, Seq<char>)>
    decreases evs.len() - i,
{
    if i < 0 || i >= evs.len() {
        Seq::empty()
    } else {
        match heading_item_at(evs, i) {
            Some(h) => seq![h] + all_headings_from(evs, i + 1),
            None => all_headings_from(evs, i + 1),
        }
    }
}

/// The entry of the heading that starts at `i`, if one does.
pub open spec fn heading_item_at(evs: Seq<MdEventView>, i: int) -> Option<(u8, Seq<char>, Seq<char>)> {
    match evs[i] {
        MdEventView::HeadingStart(l) => {
            let t = heading_text(evs, i + 1, heading_end(evs, i + 1));
            Some((l, slugify_spec(t), t))
        },
        _ => None,
    }
}

/// Headings stand apart from what the renderer replaces: no heading starts
/// inside a fenced code block or a WeChat article link, nor before an
/// earlier heading has ended.
#[verifier::opaque]
pub open spec fn headings_apart(evs: Seq<MdEventView>) -> bool {
    &&& forall|i: int, j: int| 0 <= i < j < evs.len() && (#[trigger] evs[i]) is FencedCodeStart && (#[trigger] evs[j]) is HeadingStart
        ==> (match code_block_end(evs, i + 1) {
            Some(e) => e < j,
            None => i + 1 < j,
        })
    &&& forall|i: int, j: int| 0 <= i < j < evs.len() && (#[trigger] evs[i]) is LinkStart
        && is_wechat_mp_link_spec(evs[i]->LinkStart_0) && (#[trigger] evs[j]) is HeadingStart
        ==> (link_end(evs, i + 1, 0) matches Some(e) ==> e < j)
    &&& forall|i: int, j: int| 0 <= i < j < evs.len() && (#[trigger] evs[i]) is HeadingStart && (#[trigger] evs[j]) is HeadingStart
        ==> heading_end(evs, i + 1) < j
}

/// From `i` on, `cur` is `evs` but for ends of headings already replaced by
/// HTML, all of which come before the next heading.
#[verifier::opaque]
pub open spec fn agrees_from(cur: Seq<MdEventView>, evs: Seq<MdEventView>, i: int) -> bool {
    &&& cur.len() == evs.len()
    &&& forall|x: int| i <= x < evs.len() ==> (#[trigger] cur[x] == evs[x] || (evs[x] is HeadingEnd && cur[x] is Html
        && forall|j: int| i <= j < evs.len() && (#[trigger] evs[j]) is HeadingStart ==> x < j))
}

proof fn lemma_heading_end_agree(a: Seq<MdEventView>, b: Seq<MdEventView>, k: int)
    requires
        a.len() == b.len(),
        0 <= k,
        forall|x: int| k <= x < a.len() ==> a[x] == b[x],
    ensures
        heading_end(a, k) == heading_end(b, k),
    decreases a.len() - k,
{
    if k < a.len() {
        lemma_heading_end_agree(a, b, k + 1);
    }
}

proof fn lemma_heading_text_agree(a: Seq<MdEventView>, b: Seq<MdEventView>, lo: int, hi: int)
    requires
        a.len() == b.len(),
        0 <= lo,
        hi <= a.len(),
        forall|x: int| lo <= x < a.len() ==> a[x] == b[x],
    ensures
        heading_text(a, lo, hi) == heading_text(b, lo, hi),
    decreases hi - lo,
{
    if lo < hi {
        lemma_heading_text_agree(a, b, lo, hi - 1);
    }
}

proof fn lemma_code_block_end_agree(a: Seq<MdEventView>, b: Seq<MdEventView>, k: int)
    requires
        a.len() == b.len(),
        0 <= k,
        forall|x: int| k <= x < a.len() ==> (#[trigger] a[x] == b[x] || (b[x] is HeadingEnd && a[x] is Html)),
    ensures
        code_block_end(a, k) == code_block_end(b, k),
    decreases a.len() - k,
{
    if k < a.len() {
        lemma_code_block_end_agree(a, b, k + 1);
    }
}

proof fn lemma_link_end_agree(a: Seq<MdEventView>, b: Seq<MdEventView>, k: int, depth: nat)
    requires
        a.len() == b.len(),
        0 <= k,
        forall|x: int| k <= x < a.len() ==> (#[trigger] a[x] == b[x] || (b[x] is HeadingEnd && a[x] is Html)),
    ensures
        link_end(a, k, depth) == link_end(b, k, depth),
    decreases a.len() - k,
{
    if k < a.len() {
        lemma_link_end_agree(a, b, k + 1, depth + 1);
        if depth > 0 {
            lemma_link_end_agree(a, b, k + 1, (depth - 1) as nat);
        }
        lemma_link_end_agree(a, b, k + 1, depth);
    }
}

proof fn lemma_all_headings_skip(evs: Seq<MdEventView>, a: int, b: int)
    requires
        0 <= a <= b,
        forall|j: int| a <= j < b && j < evs.len() ==> !(#[trigger] evs[j] is HeadingStart),
    ensures
        all_headings_from(evs, a) == all_headings_from(evs, b),
    decreases b - a,
{
    if a < b {
        if a < evs.len() {
            lemma_all_headings_skip(evs, a + 1, b);
        } else {
            reveal_with_fuel(all_headings_from, 1);
            lemma_all_headings_past_end(evs, b);
        }
    }
}

proof fn lemma_all_headings_past_end(evs: Seq<MdEventView>, b: int)
    requires
        b >= evs.len(),
    ensures
        all_headings_from(evs, b) == Seq::<(u8, Seq<char>, Seq<char>)>::empty(),
{
}

proof fn lemma_toc_step(cur: Seq<MdEventView>, evs: Seq<MdEventView>, i: int, o: RenderOptionsView)
    requires
        0 <= i < evs.len(),
        cur.len() == evs.len(),
        agrees_from(cur, evs, i),
        headings_apart(evs),
        o.enable_toc,
    ensures
        ({
            let (ne, item, next) = render_step(cur, i, o);
            &&& i < next
            &&& ne.len() == evs.len()
            &&& next <= evs.len() ==> agrees_from(ne, evs, next)
            &&& forall|j: int| i < j < next && j < evs.len() ==> !(#[trigger] evs[j] is HeadingStart)
            &&& item == heading_item_at(evs, i)
        }),
{
    reveal(agrees_from);
    reveal(headings_apart);
    let (ne, item, next) = render_step(cur, i, o);
    lemma_render_step(cur, i, o);
    let n = evs.len() as int;
    assert(cur[i] == evs[i] || (evs[i] is HeadingEnd && cur[i] is Html));
    assert forall|x: int| i + 1 <= x < n implies (#[trigger] cur[x] == evs[x] || (evs[x] is HeadingEnd && cur[x] is Html)) by {
        assert(cur[x] == evs[x] || (evs[x] is HeadingEnd && cur[x] is Html));
    }
    if cur[i] != evs[i] {
        assert(ne == cur && next == i + 1 && item is None);
        assert(agrees_from(ne, evs, next));
    } else {
        match evs[i] {
            MdEventView::HeadingStart(l) => {
                assert forall|x: int| i <= x < n implies cur[x] == evs[x] by {
                    if cur[x] != evs[x] {
                        assert(evs[i] is HeadingStart);
                    }
                }
                lemma_heading_end_agree(cur, evs, i + 1);
                lemma_heading_end(evs, i + 1);
                let j = heading_end(evs, i + 1);
                lemma_heading_text_agree(cur, evs, i + 1, j);
                let t = heading_text(evs, i + 1, j);
                let opened = cur.update(i, MdEventView::Html(heading_open(l, slugify_spec(t))));
                let closed = if j < n { opened.update(j, MdEventView::Html(heading_close(l))) } else { opened };
                assert(ne == closed);
                assert(next == i + 1);
                assert forall|x: int| i + 1 <= x < n implies (#[trigger] ne[x] == evs[x] || (evs[x] is HeadingEnd && ne[x] is Html
                    && forall|k: int| i + 1 <= k < n && (#[trigger] evs[k]) is HeadingStart ==> x < k)) by {
                    if x == j {
                        assert forall|k: int| i + 1 <= k < n && (#[trigger] evs[k]) is HeadingStart implies x < k by {
                            assert(evs[i] is HeadingStart);
                        }
                    } else {
                        assert(ne[x] == cur[x]);
                    }
                }
            },
            MdEventView::FencedCodeStart(info) => {
                lemma_code_block_end_agree(cur, evs, i + 1);
                lemma_code_block_end(evs, i + 1);
                let stop = match code_block_end(cur, i + 1) {
                    Some(e) => e,
                    None => n,
                };
                let end = match code_block_end(cur, i + 1) {
                    Some(e) => e,
                    None => i + 1,
                };
                let html = fence_html(code_text(cur, i + 1, stop), info, o.enable_math, o.code_theme);
                let u = cur.update(i, MdEventView::Html(html));
                assert(ne == blank(u, i + 1, end));
                assert(next == end + 1);
                assert forall|x: int| next <= x < n implies (#[trigger] ne[x] == evs[x] || (evs[x] is HeadingEnd && ne[x] is Html
                    && forall|k: int| next <= k < n && (#[trigger] evs[k]) is HeadingStart ==> x < k)) by {
                    assert(ne[x] == cur[x]);
                    assert(cur[x] == evs[x] || (evs[x] is HeadingEnd && cur[x] is Html
                        && forall|k: int| i <= k < n && (#[trigger] evs[k]) is HeadingStart ==> x < k));
                }
                assert forall|j: int| i < j < next && j < n implies !(#[trigger] evs[j] is HeadingStart) by {
                    if evs[j] is HeadingStart {
                        assert(evs[i] is FencedCodeStart);
                    }
                }
            },
            MdEventView::LinkStart(url) => {
                if is_wechat_mp_link_spec(url) {
                    lemma_link_end_agree(cur, evs, i + 1, 0);
                    lemma_link_end(evs, i + 1, 0);
                    match link_end(cur, i + 1, 0) {
                        Some(end) => {
                            let card = wechat_card_spec(url, plain_text(cur, i + 1, end), card_preview(o.wechat_previews, url));
                            let u = cur.update(i, MdEventView::Html(card));
                            assert(ne == blank(u, i + 1, end));
                            assert(next == end + 1);
                            assert forall|x: int| next <= x < n implies (#[trigger] ne[x] == evs[x] || (evs[x] is HeadingEnd
                                && ne[x] is Html && forall|k: int| next <= k < n && (#[trigger] evs[k]) is HeadingStart ==> x < k)) by {
                                assert(ne[x] == cur[x]);
                                assert(cur[x] == evs[x] || (evs[x] is HeadingEnd && cur[x] is Html
                                    && forall|k: int| i <= k < n && (#[trigger] evs[k]) is HeadingStart ==> x < k));
                            }
                            assert forall|j: int| i < j < next && j < n implies !(#[trigger] evs[j] is HeadingStart) by {
                                if evs[j] is HeadingStart {
                                    assert(evs[i] is LinkStart);
                                }
                            }
                        },
                        None => {
                            assert(ne == cur && next == i + 1);
                        },
                    }
                } else {
                    assert(ne == cur && next == i + 1);
                }
            },
            MdEventView::InlineMath(l) => {
                assert(next == i + 1);
                assert forall|x: int| next <= x < n implies (#[trigger] ne[x] == cur[x]) by {}
            },
            MdEventView::DisplayMath(l) => {
                assert(next == i + 1);
                assert forall|x: int| next <= x < n implies (#[trigger] ne[x] == cur[x]) by {}
            },
            _ => {
                assert(ne == cur && next == i + 1);
            },
        }
    }
}

proof fn lemma_toc_from(cur: Seq<MdEventView>, evs: Seq<MdEventView>, i: int, toc: Seq<(u8, Seq<char>, Seq<char>)>, o: RenderOptionsView)
    requires
        0 <= i <= evs.len(),
        cur.len() == evs.len(),
        agrees_from(cur, evs, i),
        headings_apart(evs),
        o.enable_toc,
    ensures
        render_from(cur, i, toc, o).1 == toc + all_headings_from(evs, i),
    decreases evs.len() - i,
{
    if i >= evs.len() {
        assert(toc + all_headings_from(evs, i) =~= toc);
    } else {
        lemma_toc_step(cur, evs, i, o);
        let (ne, item, next) = render_step(cur, i, o);
        let next_toc = match item {
            Some(t) => toc.push(t),
            None => toc,
        };
        lemma_all_headings_skip(evs, i + 1, next);
        let rest = all_headings_from(evs, next);
        match item {
            Some(h) => {
                assert(all_headings_from(evs, i) == seq![h] + all_headings_from(evs, i + 1));
                assert(toc + all_headings_from(evs, i) =~= next_toc + rest);
            },
            None => {
                assert(all_headings_from(evs, i) == all_headings_from(evs, i + 1));
            },
        }
        assert(toc + all_headings_from(evs, i) == next_toc + rest);
        if next <= evs.len() {
            lemma_render_from_step(cur, i, toc, o, next);
            lemma_toc_from(ne, evs, next, next_toc, o);
        } else {
            lemma_all_headings_past_end(evs, next);
            assert(next_toc + rest =~= next_toc);
            assert(render_from(cur, i, toc, o) == (ne, next_toc));
        }
    }
}

/// With the table of contents on, the renderer lists one entry per heading
/// of the events, in order, each `(level, slugify(text), text)` with the
/// heading's text and inline code, wherever no heading starts inside a
/// fenced code block or a WeChat article link or before an earlier heading
/// has ended. (The table of contents of `render_markdown_spec` is this list
/// for the events of the text.)
pub proof fn lemma_toc_one_entry_per_heading(evs: Seq<MdEventView>, o: RenderOptionsView)
    requires
        o.enable_toc,
        headings_apart(evs),
    ensures
        render_from(evs, 0, Seq::empty(), o).1 == all_headings_from(evs, 0),
{
    reveal(agrees_from);
    lemma_toc_from(evs, evs, 0, Seq::empty(), o);
    assert(Seq::<(u8, Seq<char>, Seq<char>)>::empty() + all_headings_from(evs, 0) =~= all_headings_from(evs, 0));
}

} // verus!
