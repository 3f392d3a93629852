use blog_rs::config::{path_join, GiscusConfig, SiteConfig, ThemeConfig};
use blog_rs::post::{
    compute_permalink, date_format_value, format_date_ymd, parse_date, split_excerpt, split_frontmatter_raw,
    DateFormatted, DateTime, Frontmatter, FrontmatterError, Post,
};
use blog_rs::render::render_post;
use blog_rs::site::{
    archive_by_year, has_katex, index_page, list_terms, page_count, post_neighbours, post_url, sort_posts_by_date, strip_html_tags,
    text_less, uses_mermaid,
};

fn date(year: i32, month: u32, day: u32, hour: u32) -> DateTime {
    DateTime { year, month, day, hour, minute: 0, second: 0 }
}

fn frontmatter(title: &str, d: DateTime, id: &str) -> Frontmatter {
    Frontmatter {
        title: title.to_string(),
        date: d,
        tags: vec![],
        categories: vec![],
        mathjax: false,
        toc: None,
        id: id.to_string(),
        password: None,
    }
}

fn post(title: &str, d: DateTime) -> Post {
    Post::parse("p.md", frontmatter(title, d, title), "body", ":id/")
}

#[test]
fn dates_parse_with_or_without_time() {
    assert_eq!(parse_date("2025-12-21 23:29:01"), Some(DateTime { year: 2025, month: 12, day: 21, hour: 23, minute: 29, second: 1 }));
    assert_eq!(parse_date("2025-12-21"), Some(date(2025, 12, 21, 0)));
    assert_eq!(parse_date("21/12/2025"), None);
    assert_eq!(parse_date("2025-02-30"), None);
}

#[test]
fn frontmatter_is_split_from_body() {
    let r = split_frontmatter_raw("\n---\ntitle: x\n---\nbody").ok().unwrap();
    assert_eq!(r, ("\ntitle: x".to_string(), "\nbody".to_string()));
    assert!(matches!(split_frontmatter_raw("no frontmatter"), Err(FrontmatterError::MissingDelimiter)));
    assert!(matches!(split_frontmatter_raw("---\ntitle: x"), Err(FrontmatterError::Unclosed)));
}

#[test]
fn excerpt_is_split_at_more_marker() {
    assert_eq!(split_excerpt("a<!-- more -->b"), ("a".to_string(), "ab".to_string(), true));
    assert_eq!(split_excerpt("intro<!--MORE-->rest"), ("intro".to_string(), "introrest".to_string(), true));
    assert_eq!(split_excerpt("short"), ("short".to_string(), "short".to_string(), false));
    let long: String = "x".repeat(350);
    let (ex, full, more) = split_excerpt(&long);
    assert_eq!(ex.chars().count(), 300);
    assert_eq!(full, long);
    assert!(!more);
    assert!(full.starts_with(&ex));
}

#[test]
fn permalink_fills_pattern_and_ends_with_slash() {
    let fm = frontmatter("t", date(2025, 1, 5, 0), "slug");
    assert_eq!(compute_permalink(&fm, ":year/:month/:day/:id/"), "2025/01/05/slug/");
    assert_eq!(compute_permalink(&fm, "posts/:id"), "posts/slug/");
    assert!(compute_permalink(&fm, "").ends_with('/'));
    assert_eq!(format_date_ymd(&date(987, 3, 9, 0)), "0987-03-09");
}

#[test]
fn date_format_filter_values() {
    assert!(matches!(date_format_value("2025-01-05T10:20:30", "%Y/%m/%d %H"), DateFormatted::Text(t) if t == "2025/01/05 10"));
    assert!(matches!(date_format_value("2025-01-05", "%d.%m.%Y"), DateFormatted::Text(t) if t == "05.01.2025"));
    assert!(matches!(date_format_value("hello", "%Y"), DateFormatted::NotADate));
    assert!(matches!(date_format_value("2025-01-05", "%H:%M"), DateFormatted::BadFormat));
}

#[test]
fn posts_sort_newest_first_and_stably() {
    let posts = vec![
        post("old", date(2020, 1, 1, 0)),
        post("new", date(2024, 6, 1, 0)),
        post("tie-a", date(2022, 3, 3, 8)),
        post("tie-b", date(2022, 3, 3, 8)),
        post("earlier-that-day", date(2022, 3, 3, 7)),
    ];
    let sorted = sort_posts_by_date(posts);
    let titles: Vec<&str> = sorted.iter().map(|p| p.frontmatter.title.as_str()).collect();
    assert_eq!(titles, vec!["new", "tie-a", "tie-b", "earlier-that-day", "old"]);
}

#[test]
fn pagination_covers_every_post() {
    assert_eq!(page_count(0, 10), 1);
    assert_eq!(page_count(10, 10), 1);
    assert_eq!(page_count(11, 10), 2);
    let p1 = index_page(25, 10, 1, "public");
    assert_eq!((p1.start, p1.end, p1.current, p1.total_pages), (10, 20, 2, 3));
    assert_eq!(p1.prev, Some("/".to_string()));
    assert_eq!(p1.next, Some("/page/3/".to_string()));
    assert_eq!(p1.dir, "public/page/2");
    let p2 = index_page(25, 10, 2, "public/");
    assert_eq!((p2.start, p2.end), (20, 25));
    assert_eq!(p2.prev, Some("/page/2/".to_string()));
    assert_eq!(p2.next, None);
    assert_eq!(p2.dir, "public/page/3");
    let p0 = index_page(0, 10, 0, "out");
    assert_eq!((p0.start, p0.end, p0.prev, p0.dir.as_str()), (0, 0, None, "out"));
    let mut covered = 0;
    for page in 0..page_count(95, 7) {
        let p = index_page(95, 7, page, "o");
        assert_eq!(p.start, covered);
        covered = p.end;
    }
    assert_eq!(covered, 95);
}

#[test]
fn archive_groups_by_year_newest_first() {
    let dates = vec![date(2023, 1, 1, 0), date(2021, 5, 5, 0), date(2023, 7, 7, 0), date(2022, 2, 2, 0)];
    let archive = archive_by_year(&dates);
    let years: Vec<&str> = archive.iter().map(|a| a.year.as_str()).collect();
    assert_eq!(years, vec!["2023", "2022", "2021"]);
    assert_eq!(archive[0].posts, vec![0, 2]);
    assert_eq!(archive[1].posts, vec![3]);
    assert_eq!(archive[2].posts, vec![1]);
    assert!(text_less("2021", "2022") && !text_less("2022", "2022") && text_less("ab", "abc"));
}

#[test]
fn terms_are_listed_in_first_appearance_order() {
    let lists = vec![
        vec!["rust".to_string(), " ".to_string(), "web".to_string()],
        vec!["rust".to_string(), "rust".to_string()],
        vec![],
    ];
    let listing = list_terms(&lists);
    assert_eq!(listing.len(), 2);
    assert_eq!(listing[0].term, "rust");
    assert_eq!(listing[0].posts, vec![0, 1, 1]);
    assert_eq!(listing[1].term, "web");
    assert_eq!(listing[1].posts, vec![0]);
}

#[test]
fn search_text_has_tags_removed() {
    assert_eq!(strip_html_tags("<p>a &amp; b</p><br/>&lt;x&gt; &quot;q&quot;"), "a & b<x> \"q\"");
    assert_eq!(strip_html_tags("a < b"), "a < b");
    assert_eq!(strip_html_tags("&amp;lt;"), "&lt;");
    assert_eq!(strip_html_tags("<p>&amp;lt;b&amp;gt;</p>"), "&lt;b&gt;");
}

#[test]
fn page_details() {
    assert!(uses_mermaid("x\n```mermaid\ngraph\n```"));
    assert!(!uses_mermaid("```rust\n```"));
    assert!(has_katex("<span class=\"katex\">"));
    assert_eq!(post_url("2025/01/05/x/"), "/2025/01/05/x/");
}

#[test]
fn config_defaults_and_paths() {
    let theme = ThemeConfig::default();
    assert!(theme.toc);
    assert_eq!(theme.code_theme, "InspiredGitHub");
    assert_eq!(theme.accent_color, "#428bca");
    let giscus = GiscusConfig::default();
    assert!(!giscus.is_enabled());
    let on = GiscusConfig { repo: "u/r".to_string(), repo_id: "id".to_string(), category: String::new(), category_id: String::new() };
    assert!(on.is_enabled());
    assert_eq!(blog_rs::config::default_permalink(), ":year/:month/:day/:id/");
    assert_eq!(blog_rs::config::default_per_page(), 10);
    assert_eq!(path_join("content", "_posts"), "content/_posts");
    assert_eq!(path_join("content/", "_posts"), "content/_posts");
    assert_eq!(path_join("", "_posts"), "_posts");
    assert_eq!(path_join("a", "/abs"), "/abs");
    let config = SiteConfig {
        title: "T".to_string(),
        subtitle: String::new(),
        author: "A".to_string(),
        url: "https://x/".to_string(),
        language: blog_rs::config::default_language(),
        avatar: String::new(),
        github: String::new(),
        email: String::new(),
        motto: String::new(),
        since: blog_rs::config::default_since(),
        icp: String::new(),
        gongan: String::new(),
        gongan_id: String::new(),
        permalink: blog_rs::config::default_permalink(),
        per_page: 10,
        source_dir: "content".to_string(),
        output_dir: "public".to_string(),
        theme,
        giscus,
    };
    assert_eq!(config.posts_dir(), "content/_posts");
    assert_eq!(config.gallery_dir(), "content/gallery");
}

#[test]
fn post_is_rendered_with_toc_and_excerpt() {
    let mut fm = frontmatter("T", date(2024, 1, 1, 0), "t");
    fm.toc = Some(true);
    let p = Post::parse("t.md", fm, "# One\n\nintro<!--more-->\n\n## Two", ":id/");
    assert_eq!(p.excerpt, "# One\n\nintro");
    let html = render_post(&p, "InspiredGitHub", false, None);
    assert!(html.content.starts_with("<h1 id=\"one\">One</h1>"));
    assert!(html.content.contains("<h2 id=\"two\">Two</h2>"));
    assert_eq!(
        html.toc_html,
        "<nav class=\"toc\">\n<h3>目录</h3>\n<ul>\n<ul>\n<li><a href=\"#one\">One</a></li>\n<ul>\n<li><a href=\"#two\">Two</a></li>\n</ul>\n</ul>\n</ul>\n</nav>"
    );
    assert!(!html.has_math);
}

#[test]
fn empty_site_has_one_page_whatever_per_page() {
    assert_eq!(page_count(0, 0), 1);
    let p = index_page(0, 0, 0, "public");
    assert_eq!((p.start, p.end, p.current, p.total_pages), (0, 0, 1, 1));
    assert!(p.prev.is_none() && p.next.is_none());
}

#[test]
fn neighbours_link_older_and_newer_posts() {
    assert_eq!(post_neighbours(3, 0), (Some(1), None));
    assert_eq!(post_neighbours(3, 1), (Some(2), Some(0)));
    assert_eq!(post_neighbours(3, 2), (None, Some(1)));
    assert_eq!(post_neighbours(1, 0), (None, None));
}

#[test]
fn toc_follows_frontmatter_then_theme() {
    let mut fm = frontmatter("T", date(2024, 1, 1, 0), "t");
    let p = Post::parse("t.md", fm, "## A\n", ":id/");
    assert_eq!(render_post(&p, "InspiredGitHub", false, None).toc_html, "");
    assert!(!render_post(&p, "InspiredGitHub", true, None).toc_html.is_empty());
    fm = frontmatter("T", date(2024, 1, 1, 0), "t");
    fm.toc = Some(false);
    let p = Post::parse("t.md", fm, "## A\n", ":id/");
    let html = render_post(&p, "InspiredGitHub", true, None);
    assert_eq!(html.toc_html, "");
    assert!(html.content.contains("<h2>A</h2>"));
    let mut fm = frontmatter("T", date(2024, 1, 1, 0), "t");
    fm.toc = Some(true);
    let p = Post::parse("t.md", fm, "## A\n", ":id/");
    assert!(render_post(&p, "InspiredGitHub", false, None).toc_html.contains("<a href=\"#a\">A</a>"));
}

#[test]
fn excerpt_splits_at_first_marker_any_case() {
    let (ex, body, more) = split_excerpt("a<!-- MORE -->b<!--more-->c");
    assert_eq!((ex.as_str(), body.as_str(), more), ("a", "ab<!--more-->c", true));
    let (ex, body, more) = split_excerpt("a<!--  more-->b");
    assert_eq!((ex.as_str(), body.as_str(), more), ("a<!--  more-->b", "a<!--  more-->b", false));
}

#[test]
fn frontmatter_is_split_at_first_closing_line() {
    assert_eq!(
        split_frontmatter_raw("  ---\ntitle: a\n---\nbody\n---\nmore"),
        Ok(("\ntitle: a".to_string(), "\nbody\n---\nmore".to_string()))
    );
    assert_eq!(split_frontmatter_raw("title: a"), Err(FrontmatterError::MissingDelimiter));
    assert_eq!(split_frontmatter_raw("---\ntitle: a"), Err(FrontmatterError::Unclosed));
}
