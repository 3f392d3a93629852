use blog_rs::post::split_excerpt;
use blog_rs::render::hexo_tags::{extract, HexoTag};
use blog_rs::render::markdown::{normalize_mermaid_inline_math, MermaidMath};
use blog_rs::render::rewrite::rewrite_all;
use blog_rs::render::{ImgCaption, PairedMarker, UnwrapBlock};
use blog_rs::site::strip_html_tags;
use regex::{Captures, Regex};

/// Deterministic texts built from the given pieces.
fn samples(pieces: &[&str], count: usize, max_len: usize) -> Vec<String> {
    let mut out = Vec::new();
    let mut state: u64 = 0x2545_f491_4f6c_dd1d;
    for _ in 0..count {
        state ^= state << 13;
        state ^= state >> 7;
        state ^= state << 17;
        let len = (state % (max_len as u64 + 1)) as usize;
        let mut s = String::new();
        for _ in 0..len {
            state ^= state << 13;
            state ^= state >> 7;
            state ^= state << 17;
            s.push_str(pieces[(state % pieces.len() as u64) as usize]);
        }
        out.push(s);
    }
    out
}

fn tag_text(tag: &HexoTag) -> String {
    match tag {
        HexoTag::Note { note_type, no_icon, summary, content } => format!("note|{note_type}|{no_icon}|{summary:?}|{content}"),
        HexoTag::GroupPicture { layout, content } => format!("group|{layout}|{content}"),
        HexoTag::Video { src } => format!("video|{src}"),
        HexoTag::Pdf { url, height } => format!("pdf|{url}|{height}"),
    }
}

fn reference_extract(markdown: &str) -> (String, Vec<String>) {
    let note = Regex::new(r"(?s)\{%\s*note\s+(.*?)\s*%\}(.*?)\{%\s*endnote\s*%\}").unwrap();
    let group = Regex::new(r"(?s)\{%\s*grouppicture\s+([\d-]+)\s*%\}(.*?)\{%\s*endgrouppicture\s*%\}").unwrap();
    let video = Regex::new(r"\{%\s*video\s+(.+?)\s*%\}").unwrap();
    let pdf = Regex::new(r"\{%\s*pdf\s+(\S+)(?:\s+\[([^\]]+)\])?\s*%\}").unwrap();
    let mut tags: Vec<String> = Vec::new();
    let text = note
        .replace_all(markdown, |c: &Captures| {
            let (t, n, s) = blog_rs::render::hexo_tags::parse_note_args(&c[1]);
            let i = tags.len();
            tags.push(format!("note|{t}|{n}|{s:?}|{}", &c[2]));
            format!("<<PLACEHOLDER_{i}>>")
        })
        .into_owned();
    let text = group
        .replace_all(&text, |c: &Captures| {
            let i = tags.len();
            tags.push(format!("group|{}|{}", &c[1], &c[2]));
            format!("<<PLACEHOLDER_{i}>>")
        })
        .into_owned();
    let text = video
        .replace_all(&text, |c: &Captures| {
            let i = tags.len();
            tags.push(format!("video|{}", &c[1]));
            format!("<<PLACEHOLDER_{i}>>")
        })
        .into_owned();
    let text = pdf
        .replace_all(&text, |c: &Captures| {
            let i = tags.len();
            let h = c.get(2).map(|m| m.as_str().to_string()).unwrap_or_else(|| "500px".into());
            tags.push(format!("pdf|{}|{h}", &c[1]));
            format!("<<PLACEHOLDER_{i}>>")
        })
        .into_owned();
    (text, tags)
}

#[test]
fn extract_agrees_with_tag_patterns() {
    let pieces = [
        "{%", "%}", " ", "\n", "note", "endnote", "grouppicture", "endgrouppicture", "video", "pdf", "info",
        "no-icon", "T", "2-2", "٣", "-", "[", "]", "800px", "/v.mp4", "x", "{", "}", "%", "\t",
    ];
    let mut texts = samples(&pieces, 1200, 12);
    texts.extend([
        "{% note info %}a{% endnote %}{% note %}b{% endnote %}".to_string(),
        "{%note  warning no-icon  Big  Title %}\nbody\n{%endnote%}".to_string(),
        "{% grouppicture 3-1 %}![a](b){% endgrouppicture %} {% grouppicture x %}c{% endgrouppicture %}".to_string(),
        "{% video  /a b.mp4  %} {% video\n/x %} {%video /y%}".to_string(),
        "{% pdf https://x/p.pdf [800px] %} {% pdf /a.pdf %} {% pdf /b.pdf [] %}".to_string(),
        "{% note info %}{% video /v.mp4 %}{% endnote %}".to_string(),
    ]);
    for t in texts {
        let ours = extract(&t);
        let (text, tags) = reference_extract(&t);
        assert_eq!(ours.text, text, "text of {t:?}");
        let ours_tags: Vec<String> = ours.tags.iter().map(tag_text).collect();
        assert_eq!(ours_tags, tags, "tags of {t:?}");
    }
}

#[test]
fn paired_markers_agree_with_patterns() {
    let bold = Regex::new(r"\*\*([^*]+)\*\*").unwrap();
    let del = Regex::new(r"~~([^~]+)~~").unwrap();
    for t in samples(&["*", "~", "a", " ", "中", "\n"], 3000, 12) {
        let ours = rewrite_all(&PairedMarker { mark: '*', tag: "strong" }, &t);
        assert_eq!(ours, bold.replace_all(&t, "<strong>$1</strong>").into_owned(), "bold in {t:?}");
        let ours = rewrite_all(&PairedMarker { mark: '~', tag: "del" }, &t);
        assert_eq!(ours, del.replace_all(&t, "<del>$1</del>").into_owned(), "del in {t:?}");
    }
}

#[test]
fn image_captions_agree_with_pattern() {
    let img = Regex::new(r#"<img\s+([^>]*)alt="([^"]+)"([^>]*)>"#).unwrap();
    let pieces = ["<img", " ", "\n", "alt=\"", "\"", ">", "src=\"a.png\"", "x", "alt=", "<"];
    for t in samples(&pieces, 4000, 10) {
        let ours = rewrite_all(&ImgCaption, &t);
        let reference = img
            .replace_all(&t, |c: &Captures| {
                format!("<figure><img {}alt=\"{}\"{}><figcaption>{}</figcaption></figure>", &c[1], &c[2], &c[3], &c[2])
            })
            .into_owned();
        assert_eq!(ours, reference, "image tags in {t:?}");
    }
}

#[test]
fn block_unwrapping_agrees_with_pattern() {
    let re = Regex::new(r"<p>\s*(<(?:div|details|figure)\b[^>]*>[\s\S]*?</(?:div|details|figure)>)\s*</p>").unwrap();
    let pieces = ["<p>", "</p>", "<div", "<details", "<figure", ">", "</div>", "</figure>", " ", "\n", "x", "-", "é", "<"];
    for t in samples(&pieces, 4000, 10) {
        let ours = rewrite_all(&UnwrapBlock, &t);
        assert_eq!(ours, re.replace_all(&t, "$1").into_owned(), "blocks in {t:?}");
    }
}

#[test]
fn inline_math_agrees_with_pattern() {
    let re = Regex::new(r"(?m)(^|[^\\$])\$([^$\n]+?)\$").unwrap();
    for t in samples(&["$", "a", "\\", "\n", " "], 3000, 12) {
        let ours = normalize_mermaid_inline_math(&t);
        let reference = re.replace_all(&t, |c: &Captures| format!("{}$${}$$", &c[1], &c[2])).into_owned();
        assert_eq!(ours, reference, "math in {t:?}");
        assert_eq!(rewrite_all(&MermaidMath, &t), ours);
    }
}

#[test]
fn more_marker_agrees_with_pattern() {
    let re = Regex::new(r"(?i)<!-- ?more ?-->").unwrap();
    for t in samples(&["<!--", "-->", " ", "more", "MoRe", "x", "<!-- more", "-"], 3000, 8) {
        let (excerpt, full, has_more) = split_excerpt(&t);
        match re.find(&t) {
            Some(m) => {
                assert!(has_more);
                assert_eq!(excerpt, &t[..m.start()]);
                assert_eq!(full, format!("{}{}", &t[..m.start()], &t[m.end()..]));
            },
            None => {
                assert!(!has_more);
                assert_eq!(full, t);
                assert_eq!(excerpt, t.chars().take(300).collect::<String>());
            },
        }
    }
}

#[test]
fn tag_stripping_agrees_with_pattern() {
    let re = Regex::new(r"<[^>]*>").unwrap();
    for t in samples(&["<", ">", "a", "&amp;", "&lt;", "&gt;", "&quot;", "&"], 3000, 10) {
        let reference = re
            .replace_all(&t, "")
            .into_owned()
            .replace("&amp;", "&")
            .replace("&lt;", "<")
            .replace("&gt;", ">")
            .replace("&quot;", "\"");
        assert_eq!(strip_html_tags(&t), reference, "stripping {t:?}");
    }
}

#[test]
fn figure_protection_agrees_with_pattern() {
    let re = Regex::new(r"<figure>.*?</figure>").unwrap();
    for t in samples(&["<figure>", "</figure>", "x", "\n", "<", ">", "</fig"], 3000, 8) {
        let (protected, figs) = blog_rs::render::protect_figures(&t);
        let mut saved: Vec<String> = Vec::new();
        let reference = re
            .replace_all(&t, |c: &Captures| {
                let idx = saved.len();
                saved.push(c[0].to_string());
                format!("<<SAVEDFIG{idx}>>")
            })
            .into_owned();
        assert_eq!(protected, reference, "figures in {t:?}");
        assert_eq!(figs, saved, "saved figures of {t:?}");
    }
}

#[test]
fn toc_math_agrees_with_pattern() {
    let re = Regex::new(r"(?m)(^|[^\\$])\$([^$\n]+?)\$").unwrap();
    for t in samples(&["$", "a", "\\", "\n", " ", "<", "x^2"], 2000, 10) {
        let mut html = String::new();
        let mut last = 0;
        for caps in re.captures_iter(&t) {
            let whole = caps.get(0).unwrap();
            let prefix = caps.get(1).unwrap();
            let latex = caps.get(2).unwrap();
            html.push_str(&blog_rs::utils::html_escape(&t[last..prefix.start()]));
            html.push_str(&blog_rs::utils::html_escape(prefix.as_str()));
            html.push_str(&blog_rs::render::math::render_inline(latex.as_str()));
            last = whole.end();
        }
        html.push_str(&blog_rs::utils::html_escape(&t[last..]));
        assert_eq!(blog_rs::render::toc::render_toc_text(&t, true), html, "toc text {t:?}");
    }
}

#[test]
fn text_without_tags_is_left_alone() {
    let t = "# Title\n\nSome {braces} and % signs, no tags.";
    let ours = extract(t);
    assert_eq!(ours.text, t);
    assert!(ours.tags.is_empty());
}

#[test]
fn each_placeholder_occurs_once() {
    let t = "x {% video /a.mp4 %} y {% note info %}n{% endnote %} z {% pdf /p.pdf %} {% note %}m{% endnote %}";
    let ours = extract(t);
    assert_eq!(ours.tags.len(), 4);
    for k in 0..4 {
        assert_eq!(ours.text.matches(&format!("<<PLACEHOLDER_{k}>>")).count(), 1, "{}", ours.text);
    }
    assert_eq!(ours.text.matches("<<PLACEHOLDER_").count(), 4);
}
