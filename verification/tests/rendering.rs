use blog_rs::render::code_highlight::{choose_theme, generate_highlight_css, parse_fence_info};
use blog_rs::render::hexo_tags::{extract, parse_note_args, render_tag, safe_url, HexoTag};
use blog_rs::render::markdown::{
    compact_preview_text, is_wechat_mp_link, normalize_mermaid_inline_math, render_markdown,
    should_use_default_wechat_title, wechat_link_urls, RenderOptions,
};
use blog_rs::render::math::{math_html, render_display, render_inline};
use blog_rs::render::rewrite::rewrite_all;
use blog_rs::render::{protect_figures, render_with_hexo_tags, PairedMarker};

fn options(math: bool, toc: bool) -> RenderOptions<'static> {
    RenderOptions { enable_math: math, enable_toc: toc, code_theme: "InspiredGitHub".to_string(), wechat_previews: None }
}

#[test]
fn heading_gets_id_and_toc_entry() {
    let r = render_markdown("# Hello World\n\nText", &options(false, true));
    assert_eq!(r.html, "<h1 id=\"hello-world\">Hello World</h1>\n<p>Text</p>\n");
    assert_eq!(r.toc.len(), 1);
    assert_eq!(r.toc[0].level, 1);
    assert_eq!(r.toc[0].id, "hello-world");
    assert_eq!(r.toc[0].text, "Hello World");
}

#[test]
fn heading_without_toc_is_plain() {
    let r = render_markdown("## Sub `code`", &options(false, false));
    assert_eq!(r.html, "<h2>Sub <code>code</code></h2>\n");
    assert!(r.toc.is_empty());
}

#[test]
fn heading_text_includes_inline_code() {
    let r = render_markdown("## Use `Vec`", &options(false, true));
    assert_eq!(r.toc[0].text, "Use Vec");
    assert_eq!(r.toc[0].id, "use-vec");
    assert!(r.html.starts_with("<h2 id=\"use-vec\">"));
    assert!(r.html.ends_with("</h2>"));
}

#[test]
fn mermaid_block_passes_through_escaped() {
    let r = render_markdown("```mermaid\ngraph TD; A-->B\n```\n", &options(false, false));
    assert_eq!(r.html, "<div class=\"mermaid-container\"><pre class=\"mermaid\">graph TD; A--&gt;B\n</pre></div>");
}

#[test]
fn mermaid_inline_math_is_doubled_when_math_is_on() {
    let r = render_markdown("```mermaid\nA[$x$]\n```\n", &options(true, false));
    assert_eq!(r.html, "<div class=\"mermaid-container\"><pre class=\"mermaid\">A[$$x$$]\n</pre></div>");
    assert_eq!(normalize_mermaid_inline_math("$a$ and $b$"), "$$a$$ and $$b$$");
    assert_eq!(normalize_mermaid_inline_math("\\$x$"), "\\$x$");
}

#[test]
fn fenced_code_is_highlighted() {
    let r = render_markdown("```rust main.rs\nfn main() {}\n```\n", &options(false, false));
    assert!(r.html.starts_with("<div class=\"code-block\" data-lang=\"rust\">"));
    assert!(r.html.contains("<span class=\"code-title\">main.rs</span>"));
    assert!(r.html.contains("<span"));
}

#[test]
fn inline_math_is_rendered_only_when_enabled() {
    let on = render_markdown("Let $x$ be", &options(true, false));
    assert!(on.html.starts_with("<p>Let "));
    assert!(on.html.contains("katex"));
    assert!(on.html.ends_with(" be</p>\n"));
    let off = render_markdown("Let $x$ be", &options(false, false));
    assert_eq!(off.html, "<p>Let $x$ be</p>\n");
}

#[test]
fn katex_renders_and_reports_errors() {
    let inline = render_inline("x^2");
    assert!(inline.contains("katex"));
    assert_ne!(inline, "x^2");
    let display = render_display("\\frac{1}{2}");
    assert!(display.contains("katex-display"));
    assert_eq!(math_html("a<b", None), "<code class=\"math-error\">a&lt;b</code>");
    assert_eq!(math_html("x", Some("<b>x</b>".to_string())), "<b>x</b>");
}

#[test]
fn wechat_link_becomes_card() {
    let r = render_markdown("[文章](https://mp.weixin.qq.com/s/abc)", &options(false, false));
    let card = "<a class=\"wechat-card\" title=\"文章\" href=\"https://mp.weixin.qq.com/s/abc\" target=\"_blank\" rel=\"noopener\"><span class=\"wechat-card-body\"><span class=\"wechat-card-title\">无法访问该推送</span><span class=\"wechat-card-meta\"><span class=\"wechat-card-badge\">公众号</span><span class=\"wechat-card-source\">微信公众平台</span></span></span><span class=\"wechat-card-icon\" aria-hidden=\"true\"></span></a>";
    assert_eq!(r.html, format!("<p>{card}</p>\n"));
}

#[test]
fn other_links_stay_links() {
    let r = render_markdown("[x](https://example.com)", &options(false, false));
    assert_eq!(r.html, "<p><a href=\"https://example.com\">x</a></p>\n");
    assert_eq!(
        wechat_link_urls("[a](https://mp.weixin.qq.com/s/1) [b](https://example.com)", false),
        vec!["https://mp.weixin.qq.com/s/1".to_string()]
    );
}

#[test]
fn wechat_link_detection_and_titles() {
    assert!(is_wechat_mp_link("  HTTPS://MP.WEIXIN.QQ.COM/s/x"));
    assert!(is_wechat_mp_link("http://mp.weixin.qq.com/"));
    assert!(!is_wechat_mp_link("https://mp.weixin.qq.com"));
    assert!(should_use_default_wechat_title("  ", "u"));
    assert!(should_use_default_wechat_title("HTTPS://A", " https://a "));
    assert!(!should_use_default_wechat_title("标题", "https://mp.weixin.qq.com/s/x"));
    assert_eq!(compact_preview_text("  a \n b\tc ", 120), "a b c");
    assert_eq!(compact_preview_text("abcdef", 3), "abc...");
    assert_eq!(compact_preview_text("abc", 3), "abc");
}

#[test]
fn note_tag_is_rendered_around_its_content() {
    let html = render_with_hexo_tags("{% note info %}\nHi\n{% endnote %}", &options(false, false));
    assert_eq!(html, "<div class=\"note note-info\">\n<p><p>Hi</p></p>\n</div>\n");
}

#[test]
fn nested_tags_are_rendered_recursively() {
    let text = "{% note warning Title %}\n{% video /v.mp4 %}\n{% endnote %}";
    let html = render_with_hexo_tags(text, &options(false, false));
    assert!(html.starts_with("<details class=\"note note-warning\"><summary>Title</summary>\n"));
    assert!(html.contains("<div class=\"video-container\"><video src=\"/v.mp4\" preload=\"metadata\" controls playsinline></video></div>"));
    assert!(html.ends_with("</details>\n") || html.ends_with("</details>"));
}

#[test]
fn image_with_alt_gets_caption() {
    let html = render_with_hexo_tags("![cat](c.png)", &options(false, false));
    assert_eq!(html, "<figure><img src=\"c.png\" alt=\"cat\" /><figcaption>cat</figcaption></figure>\n");
}

#[test]
fn existing_figures_are_kept() {
    let (protected, figs) = protect_figures("a<figure>x</figure>b<figure>\n</figure>");
    assert_eq!(protected, "a<<SAVEDFIG0>>b<figure>\n</figure>");
    assert_eq!(figs, vec!["<figure>x</figure>".to_string()]);
}

#[test]
fn bold_next_to_cjk_punctuation_is_fixed() {
    let html = render_with_hexo_tags("中文**粗体。**中文", &options(false, false));
    assert_eq!(html, "<p>中文<strong>粗体。</strong>中文</p>\n");
}

#[test]
fn paired_markers_rewrite() {
    assert_eq!(rewrite_all(&PairedMarker { mark: '~', tag: "del" }, "x~~y~~z"), "x<del>y</del>z");
    assert_eq!(rewrite_all(&PairedMarker { mark: '~', tag: "del" }, "~~~"), "~~~");
    assert_eq!(rewrite_all(&PairedMarker { mark: '*', tag: "strong" }, "**a*b**"), "**a*b**");
}

#[test]
fn extract_replaces_tags_with_placeholders() {
    let e = extract("A {% video /a.mp4 %} B {% pdf https://x/p.pdf [800px] %}");
    assert_eq!(e.text, "A <<PLACEHOLDER_0>> B <<PLACEHOLDER_1>>");
    assert_eq!(e.tags.len(), 2);
    match &e.tags[1] {
        HexoTag::Pdf { url, height } => {
            assert_eq!(url, "https://x/p.pdf");
            assert_eq!(height, "800px");
        },
        _ => panic!("expected a pdf tag"),
    }
    let html = render_tag(&e.tags[1], "");
    assert_eq!(html, "<div class=\"pdf-container\"><iframe src=\"https://x/p.pdf\" width=\"100%\" height=\"800px\" frameborder=\"0\"></iframe></div>");
}

#[test]
fn unsafe_urls_are_blocked() {
    assert_eq!(safe_url(" https://a "), Some("https://a".to_string()));
    assert_eq!(safe_url("/local"), Some("/local".to_string()));
    assert_eq!(safe_url("javascript:alert(1)"), None);
    let tag = HexoTag::Video { src: "javascript:x".to_string() };
    assert_eq!(render_tag(&tag, ""), "<div class=\"video-container\"><!-- blocked unsafe URL: javascript:x --></div>");
}

#[test]
fn group_picture_columns() {
    let e = extract("{% grouppicture 3-1 %}\nimgs\n{% endgrouppicture %}");
    assert_eq!(e.tags.len(), 1);
    let html = render_tag(&e.tags[0], "X");
    assert_eq!(html, "<div class=\"group-picture\" style=\"display: grid; grid-template-columns: repeat(3, 1fr); gap: 4px;\">\nX\n</div>");
}

#[test]
fn note_arguments() {
    assert_eq!(parse_note_args("warning no-icon Title here"), ("warning".to_string(), true, Some("Title here".to_string())));
    assert_eq!(parse_note_args("bogus"), ("default".to_string(), false, Some("bogus".to_string())));
    assert_eq!(parse_note_args("info"), ("info".to_string(), false, None));
}

#[test]
fn heading_ids_are_slugs() {
    let r = render_markdown("## C++ & Rust!!\n\n### 中文：标题\n\n# ---", &options(false, true));
    let ids: Vec<&str> = r.toc.iter().map(|t| t.id.as_str()).collect();
    assert_eq!(ids, vec!["c-rust", "中文：标题", ""]);
    for id in ids {
        assert!(!id.starts_with('-') && !id.ends_with('-') && !id.contains("--"));
    }
}

#[test]
fn highlight_theme_and_stylesheet() {
    assert_eq!(choose_theme("no-such-theme"), "InspiredGitHub");
    assert_eq!(choose_theme("InspiredGitHub"), "InspiredGitHub");
    let css = generate_highlight_css("no-such-theme");
    assert!(!css.is_empty());
    assert_ne!(css, "no-such-theme");
    assert_eq!(parse_fence_info("python  hello.py "), ("python".to_string(), Some("hello.py".to_string())));
    assert_eq!(parse_fence_info(""), ("text".to_string(), None));
}

#[test]
fn one_toc_entry_per_heading_in_order() {
    let md = "# One\n\n```\n# not a heading\n```\n\n## Two `x`\n\ntext\n\n### Three\n";
    let r = render_markdown(md, &options(false, true));
    let got: Vec<(u8, &str, &str)> = r.toc.iter().map(|t| (t.level, t.id.as_str(), t.text.as_str())).collect();
    assert_eq!(got, vec![(1, "one", "One"), (2, "two-x", "Two x"), (3, "three", "Three")]);
}
