//! KaTeX math rendering (inline and display mode).
//!
//! On a KaTeX error the LaTeX source is shown escaped inside
//! `<code class="math-error">`.

use vstd::prelude::*;
use crate::text::push_str;
use crate::utils::{escape_seq, html_escape};

verus! {

/// What `katex::render` gives for a LaTeX source: `Some(html)` on success.
pub uninterp spec fn katex_inline_html(latex: Seq<char>) -> Option<Seq<char>>;

/// What `katex::render_with_opts` in display mode gives for a LaTeX source.
pub uninterp spec fn katex_display_html(latex: Seq<char>) -> Option<Seq<char>>;

/// Calls `katex::render` (inline mode). The contract only names the result:
/// it is a function of the LaTeX source (KaTeX's JavaScript renderer is
/// deterministic); what the HTML looks like, and on which sources KaTeX
/// reports an error, is not stated.
#[verifier::external_body]
fn katex_render_inline(latex: &str) -> (r: Option<String>)
    ensures
        match r {
            Some(h) => katex_inline_html(latex@) == Some(h@),
            None => katex_inline_html(latex@) is None,
        },
{
    katex::render(latex).ok()
}

/// Calls `katex::render_with_opts` with `display_mode(true)` (the options
/// builder has a default for every field, so `build` cannot fail). As for the
/// inline renderer, only the name of the result is stated.
#[verifier::external_body]
fn katex_render_display(latex: &str) -> (r: Option<String>)
    ensures
        match r {
            Some(h) => katex_display_html(latex@) == Some(h@),
            None => katex_display_html(latex@) is None,
        },
{
    let opts = katex::Opts::builder().display_mode(true).build().unwrap();
    katex::render_with_opts(latex, &opts).ok()
}

/// The fallback shown when KaTeX rejects a source.
pub open spec fn math_error_html(latex: Seq<char>) -> Seq<char> {
    "<code class=\"math-error\">"@ + escape_seq(latex) + "</code>"@
}

/// The HTML for a formula, given what KaTeX produced for it.
pub open spec fn math_html_spec(latex: Seq<char>, rendered: Option<Seq<char>>) -> Seq<char> {
    match rendered {
        Some(h) => h,
        None => math_error_html(latex),
    }
}

pub open spec fn render_inline_spec(latex: Seq<char>) -> Seq<char> {
    math_html_spec(latex, katex_inline_html(latex))
}

pub open spec fn render_display_spec(latex: Seq<char>) -> Seq<char> {
    math_html_spec(latex, katex_display_html(latex))
}

/// The HTML for a formula given KaTeX's result: the rendered HTML, or the
/// escaped source in a `math-error` code element when KaTeX failed.
pub fn math_html(latex: &str, rendered: Option<String>) -> (r: String)
    ensures
        r@ == math_html_spec(latex@, match rendered {
            Some(h) => Some(h@),
            None => None,
        }),
{
    match rendered {
        Some(h) => h,
        None => {
            let mut out = String::new();
            push_str(&mut out, "<code class=\"math-error\">");
            let esc = html_escape(latex);
            push_str(&mut out, esc.as_str());
            push_str(&mut out, "</code>");
            out
        },
    }
}

/// Renders inline math with KaTeX.
pub fn render_inline(latex: &str) -> (r: String)
    ensures
        r@ == render_inline_spec(latex@),
{
    let rendered = katex_render_inline(latex);
    math_html(latex, rendered)
}

/// Renders display math with KaTeX.
pub fn render_display(latex: &str) -> (r: String)
    ensures
        r@ == render_display_spec(latex@),
{
    let rendered = katex_render_display(latex);
    math_html(latex, rendered)
}

} // verus!
