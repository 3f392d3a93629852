use blog_rs::render::rewrite::{contains_str, replace_str};
use blog_rs::render::toc::{generate_toc, render_toc_text, slugify, TocItem};
use blog_rs::utils::{decode_entity, html_escape, html_unescape};

#[test]
fn escape_replaces_markup_characters() {
    assert_eq!(html_escape("<a href=\"x\">&</a>"), "&lt;a href=&quot;x&quot;&gt;&amp;&lt;/a&gt;");
    assert_eq!(html_escape("plain 中文"), "plain 中文");
    assert_eq!(html_escape("it's"), "it's");
}

#[test]
fn escaped_text_has_no_markup() {
    let e = html_escape("<<\"x\">>");
    assert!(!e.contains('<') && !e.contains('>') && !e.contains('"'));
}

#[test]
fn unescape_undoes_escape() {
    for s in ["", "a < b && c > d", "\"quoted\" & 'single'", "&amp;lt;", "数学 <x>"] {
        assert_eq!(html_unescape(&html_escape(s)), s);
    }
}

#[test]
fn unescape_decodes_named_and_numeric_entities() {
    assert_eq!(html_unescape("&lt;b&gt; &quot;hi&quot; &#39;x&#39; &#x4E2D;&nbsp;."), "<b> \"hi\" 'x' 中 .");
    assert_eq!(html_unescape("&unknown; &amp"), "&unknown; &amp");
    assert_eq!(html_unescape("AT&T &lt;3"), "AT&T <3");
    assert_eq!(html_unescape("&#x+41;&#+65;&#X42;"), "AAB");
    assert_eq!(html_unescape("&#x; &#+; &#;"), "&#x; &#+; &#;");
    assert_eq!(html_unescape("a && b &#; &#60;"), "a && b &#; <");
}

#[test]
fn decode_entity_cases() {
    assert_eq!(decode_entity("amp"), Some("&".to_string()));
    assert_eq!(decode_entity("#65"), Some("A".to_string()));
    assert_eq!(decode_entity("#x41"), Some("A".to_string()));
    assert_eq!(decode_entity("#xD800"), None);
    assert_eq!(decode_entity("bogus"), None);
}

#[test]
fn slugify_keeps_cjk_and_joins_words() {
    assert_eq!(slugify("Hello World!"), "hello-world");
    assert_eq!(slugify("  Rust & Verus  "), "rust-verus");
    assert_eq!(slugify("中文 标题"), "中文-标题");
    assert_eq!(slugify("---"), "");
    assert_eq!(slugify("A--B"), "a-b");
    assert_eq!(slugify("一二"), "一二");
}

#[test]
fn slugify_is_idempotent() {
    for s in ["Hello World!", "中文 标题 v2", "a_b.c"] {
        let once = slugify(s);
        assert_eq!(slugify(&once), once);
    }
}

#[test]
fn toc_nests_by_level() {
    let items = vec![
        TocItem { level: 1, id: "a".to_string(), text: "A".to_string() },
        TocItem { level: 2, id: "b".to_string(), text: "B & C".to_string() },
        TocItem { level: 1, id: "d".to_string(), text: "D".to_string() },
    ];
    let html = generate_toc(&items, false);
    assert_eq!(
        html,
        "<nav class=\"toc\">\n<h3>目录</h3>\n<ul>\n<ul>\n<li><a href=\"#a\">A</a></li>\n<ul>\n<li><a href=\"#b\">B &amp; C</a></li>\n</ul>\n<li><a href=\"#d\">D</a></li>\n</ul>\n</ul>\n</nav>"
    );
    assert_eq!(html.matches("<ul>").count(), html.matches("</ul>").count());
}

#[test]
fn toc_of_no_headings_is_empty() {
    assert_eq!(generate_toc(&[], true), "");
}

#[test]
fn toc_text_renders_inline_math() {
    let plain = render_toc_text("a $x$ b", false);
    assert_eq!(plain, "a $x$ b");
    let with_math = render_toc_text("a $x$ b", true);
    assert!(with_math.starts_with("a "));
    assert!(with_math.contains("katex"));
    assert!(with_math.ends_with(" b"));
    assert_eq!(render_toc_text("cost $5", true), "cost $5");
}

#[test]
fn replace_and_contains_follow_str() {
    assert_eq!(replace_str("aaa", "aa", "b"), "aaa".replace("aa", "b"));
    assert_eq!(replace_str("x-y-z", "-", "+"), "x+y+z");
    assert!(contains_str("hello", "ell"));
    assert!(contains_str("hello", ""));
    assert!(!contains_str("hello", "xyz"));
}

#[test]
fn escaping_changes_only_special_characters() {
    assert_eq!(html_escape("plain text 中文"), "plain text 中文");
    let e = html_escape("a&b<c>\"d");
    assert_eq!(e, "a&amp;b&lt;c&gt;&quot;d");
    for (i, _) in e.match_indices('&') {
        let rest = &e[i..];
        assert!(rest.starts_with("&amp;") || rest.starts_with("&lt;") || rest.starts_with("&gt;") || rest.starts_with("&quot;"));
    }
}

#[test]
fn slug_keeps_letters_and_digits_in_order() {
    let s = slugify("Rust 1.80: What's New?");
    assert_eq!(s, "rust-1-80-what-s-new");
    let kept: String = s.chars().filter(|c| c.is_ascii_alphanumeric()).collect();
    assert_eq!(kept, "rust180whatsnew");
}

#[test]
fn toc_lists_are_balanced() {
    let items = vec![
        TocItem { level: 2, id: "a".to_string(), text: "A".to_string() },
        TocItem { level: 4, id: "b".to_string(), text: "B".to_string() },
        TocItem { level: 1, id: "c".to_string(), text: "C".to_string() },
    ];
    let html = generate_toc(&items, false);
    assert_eq!(html.matches("<ul>").count(), html.matches("</ul>").count());
    assert_eq!(html.matches("<li>").count(), 3);
    let a = html.find("#a").unwrap();
    let b = html.find("#b").unwrap();
    let c = html.find("#c").unwrap();
    assert!(a < b && b < c);
}
