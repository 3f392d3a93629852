use blog_rs::render::wechat::{
    absolutize_url, card_asset_filename, card_asset_url, fnv1a64, image_dimensions, image_filename, is_squareish,
    js_unescape, js_var, parse_wechat_html, with_cached_image, CardImage, WechatLookup, WechatPreview,
    WechatPreviewStore,
};
use blog_rs::serve::{guess_content_type, reply_for, request_file, triggers_rebuild, Debouncer, Reply};

#[test]
fn content_types_by_extension() {
    assert_eq!(guess_content_type("public/index.html"), "text/html; charset=utf-8");
    assert_eq!(guess_content_type("a/b.css/"), "text/css; charset=utf-8");
    assert_eq!(guess_content_type("f/x.woff2"), "font/woff2");
    assert_eq!(guess_content_type("photo.jpeg"), "image/jpeg");
    assert_eq!(guess_content_type("photo.JPG"), "application/octet-stream");
    assert_eq!(guess_content_type(".bashrc"), "application/octet-stream");
    assert_eq!(guess_content_type("noext"), "application/octet-stream");
    assert_eq!(guess_content_type("a/.."), "application/octet-stream");
}

#[test]
fn requests_map_under_the_output_directory() {
    assert_eq!(request_file("public", b"/posts/%E4%B8%AD/"), "public/posts/中/index.html");
    assert_eq!(request_file("public", b"/style.css"), "public/style.css");
    assert_eq!(request_file("public", b"/"), "public/index.html");
    assert_eq!(request_file("public", b"//a%20b"), "public/a b");
    assert_eq!(request_file("public", b"/100%"), "public/100%");
}

#[test]
fn replies_fall_back_to_index_then_not_found() {
    match reply_for("public/a.css", true, false) {
        Reply::File { path, content_type } => {
            assert_eq!(path, "public/a.css");
            assert_eq!(content_type, "text/css; charset=utf-8");
        },
        Reply::NotFound => panic!("expected the file"),
    }
    match reply_for("public/dir", false, true) {
        Reply::File { path, content_type } => {
            assert_eq!(path, "public/dir/index.html");
            assert_eq!(content_type, "text/html; charset=utf-8");
        },
        Reply::NotFound => panic!("expected the index"),
    }
    assert!(matches!(reply_for("public/none", false, false), Reply::NotFound));
}

#[test]
fn output_changes_do_not_trigger_rebuilds() {
    assert!(triggers_rebuild("content/_posts/a.md"));
    assert!(!triggers_rebuild("public/index.html"));
    assert!(!triggers_rebuild("target"));
    assert!(triggers_rebuild("publications/x"));
    assert!(triggers_rebuild("/home/u/blog/public/x"));
}

#[test]
fn one_rebuild_per_burst() {
    let mut d = Debouncer::new();
    assert!(!d.on_quiet(1000));
    d.on_change(1000);
    d.on_change(1200);
    assert!(!d.on_quiet(1500));
    assert!(d.on_quiet(1700));
    assert!(!d.on_quiet(5000));
}

fn preview(title: &str, account: &str) -> WechatPreview {
    let mut p = WechatPreview::empty();
    p.title = title.to_string();
    p.account_name = account.to_string();
    p
}

#[test]
fn store_fetches_once_and_remembers_failures() {
    let mut store = WechatPreviewStore::new();
    match store.get(" https://mp.weixin.qq.com/s/a ") {
        WechatLookup::NeedsFetch { key, cached } => {
            assert_eq!(key, "https://mp.weixin.qq.com/s/a");
            assert!(cached.is_none());
        },
        _ => panic!("expected a fetch"),
    }
    assert!(store.record_fetch("https://mp.weixin.qq.com/s/a".to_string(), None).is_none());
    assert!(matches!(store.get("https://mp.weixin.qq.com/s/a"), WechatLookup::Unavailable));
    assert!(!store.is_dirty());

    let got = store.record_fetch("https://mp.weixin.qq.com/s/b".to_string(), Some(preview("T", "Acct")));
    assert_eq!(got.map(|p| p.title), Some("T".to_string()));
    assert!(store.is_dirty());
    assert_eq!(store.lookup("https://mp.weixin.qq.com/s/b").map(|p| p.account_name), Some("Acct".to_string()));
    match store.get("https://mp.weixin.qq.com/s/b") {
        WechatLookup::Ready(p) => assert_eq!(p.title, "T"),
        _ => panic!("expected the cached preview"),
    }
    assert_eq!(store.preview_for("https://mp.weixin.qq.com/s/b").map(|p| p.title), Some("T".to_string()));
}

#[test]
fn suspect_previews_are_refreshed() {
    let ok = preview("T", "Acct");
    assert!(!ok.needs_refresh());
    assert!(preview("T", "gh_123").needs_refresh());
    assert!(preview("T", "").needs_refresh());
    let mut missing = preview("T", "Acct");
    missing.cover_url = "https://img/x.png".to_string();
    assert!(missing.needs_refresh());
    assert!(!WechatPreview::empty().has_content());
}

#[test]
fn article_pages_are_parsed() {
    let html = r#"<html><head><meta property="og:title" content="OG Title"><meta name="description" content=" Desc &amp; more "></head>
<body><script>var msg_title = "JS \x26 Title";
var nickname = htmlDecode("My Account");
var msg_cdn_url = "//mmbiz.qpic.cn/cover.png";</script></body></html>"#;
    let p = parse_wechat_html(html);
    assert_eq!(p.title, "JS & Title");
    assert_eq!(p.description, "Desc & more");
    assert_eq!(p.account_name, "My Account");
    assert_eq!(p.cover_url, "//mmbiz.qpic.cn/cover.png");
    assert_eq!(js_var(html, "missing"), None);
    assert_eq!(js_unescape("a\\x26b\\u4e2d\\n"), "a&b中\n");
}

#[test]
fn cached_images() {
    assert_eq!(absolutize_url("//img/x.png"), "https://img/x.png");
    assert_eq!(absolutize_url("http://img/x"), "http://img/x");
    assert_eq!(fnv1a64(b""), 0xcbf29ce484222325);
    assert_eq!(fnv1a64(b"a"), 0xaf63dc4c8601ec8c);
    let name = image_filename("https://img/x.PNG?wx_fmt=jpeg");
    assert_eq!(name, format!("{:016x}.png", fnv1a64("https://img/x.PNG?wx_fmt=jpeg".as_bytes())));
    assert!(image_filename("https://img/noext").ends_with(".jpg"));
    assert_eq!(card_asset_url("f.png"), "/wechat-previews/f.png");
    assert_eq!(card_asset_filename("/wechat-previews/f.png"), Some("f.png".to_string()));
    assert_eq!(card_asset_filename("/other/f.png"), None);
}

#[test]
fn image_sizes_and_squareness() {
    let mut png = vec![0x89, b'P', b'N', b'G', 0x0d, 0x0a, 0x1a, 0x0a, 0, 0, 0, 13, b'I', b'H', b'D', b'R'];
    png.extend_from_slice(&[0, 0, 1, 0, 0, 0, 0, 0xf0]);
    assert_eq!(image_dimensions(&png), Some((256, 240)));
    let gif = [b'G', b'I', b'F', b'8', b'9', b'a', 10, 0, 20, 0];
    assert_eq!(image_dimensions(&gif), Some((10, 20)));
    assert_eq!(image_dimensions(b"not an image"), None);
    assert!(is_squareish(100, 100));
    assert!(is_squareish(110, 100));
    assert!(!is_squareish(111, 100));
    assert!(!is_squareish(0, 0));
    let p = with_cached_image(WechatPreview::empty(), CardImage::Cover, "/wechat-previews/c.png".to_string(), Some((100, 105)));
    assert_eq!(p.local_cover_url, "/wechat-previews/c.png");
    assert!(p.cover_is_square);
    let q = with_cached_image(p, CardImage::Thumbnail, "/t".to_string(), None);
    assert!(!q.thumbnail_is_square);
    assert_eq!(q.local_thumbnail_url, "/t");
}

#[test]
fn variable_names_are_matched_literally() {
    assert_eq!(js_var("var a.b = \"x\";", "a.b"), Some("x".to_string()));
    assert_eq!(js_var("var aXb = \"x\";", "a.b"), None);
}

#[test]
fn scraped_fields_are_trimmed() {
    let p = parse_wechat_html("<meta property=\"og:title\" content=\"  Hello  \">");
    assert_eq!(p.title, "Hello");
    let e = parse_wechat_html("");
    assert!(e.title.is_empty() && e.description.is_empty() && e.cover_url.is_empty());
}

#[test]
fn jpeg_size_comes_from_first_frame_segment() {
    // SOI, APP0 (length 4), SOF0 (height 2, width 3), SOF2 (height 9, width 9)
    let jpeg = [
        0xff, 0xd8, 0xff, 0xe0, 0x00, 0x04, 0x00, 0x00, 0xff, 0xc0, 0x00, 0x08, 0x08, 0x00, 0x02, 0x00, 0x03, 0x01,
        0xff, 0xc2, 0x00, 0x08, 0x08, 0x00, 0x09, 0x00, 0x09, 0x01,
    ];
    assert_eq!(image_dimensions(&jpeg), Some((3, 2)));
    // a start of scan before any frame segment: no size
    let scan_first = [0xff, 0xd8, 0xff, 0xda, 0x00, 0x08, 0xff, 0xc0, 0x00, 0x08, 0x08, 0x00, 0x02, 0x00, 0x03, 0x01];
    assert_eq!(image_dimensions(&scan_first), None);
}
