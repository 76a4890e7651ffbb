use italic::date::Date;
use italic::permalink::{alias_output_path, default_for, expand, paginate_pattern, to_url};

fn date(y: i32, m: u32, d: u32) -> Date {
    Date::from_ymd(y, m, d).unwrap()
}

#[test]
fn default_for_swaps_extension_to_html() {
    assert_eq!(default_for("blog/post.md"), "blog/post.html");
}

#[test]
fn default_for_adds_extension_when_missing() {
    assert_eq!(default_for("notes/readme"), "notes/readme.html");
    assert_eq!(default_for("a/b.tar.gz"), "a/b.tar.html");
    assert_eq!(default_for(".hidden"), ".hidden.html");
}

#[test]
fn expand_substitutes_slug_from_stem() {
    let p = expand("/blog/:slug/", "posts/Hello World.md", &date(2025, 1, 1), None);
    assert_eq!(p, "blog/hello-world/index.html");
}

#[test]
fn expand_zero_pads_date_components() {
    let p = expand("/:yyyy/:mm/:dd/:slug.html", "hi.md", &date(2025, 3, 7), None);
    assert_eq!(p, "2025/03/07/hi.html");
}

#[test]
fn expand_trailing_slash_appends_index_html() {
    let p = expand("/blog/:slug/", "hello.md", &date(2025, 10, 31), None);
    assert_eq!(p, "blog/hello/index.html");
}

#[test]
fn expand_no_trailing_slash_is_verbatim() {
    let p = expand("/feed.xml", "rss.md", &date(2025, 1, 1), None);
    assert_eq!(p, "feed.xml");
}

#[test]
fn expand_strips_leading_slash() {
    let p = expand("/:slug.html", "hi.md", &date(2025, 1, 1), None);
    assert_eq!(p, "hi.html");
}

#[test]
fn expand_handles_no_leading_slash() {
    let p = expand(":slug.html", "hi.md", &date(2025, 1, 1), None);
    assert_eq!(p, "hi.html");
}

#[test]
fn expand_substitutes_term() {
    let p = expand("/tags/:term/", "tags.html", &date(1970, 1, 1), Some("rust"));
    assert_eq!(p, "tags/rust/index.html");
}

#[test]
fn expand_leaves_term_literal_when_none() {
    let p = expand("/tags/:term/", "tags.html", &date(1970, 1, 1), None);
    assert_eq!(p, "tags/:term/index.html");
}

#[test]
fn expand_with_epoch_date() {
    let p = expand("/:yyyy-:mm-:dd/", "x.md", &Date::epoch(), None);
    assert_eq!(p, "1970-01-01/index.html");
}

#[test]
fn paginate_pattern_page_one_is_verbatim() {
    assert_eq!(paginate_pattern("/blog/", 1), "/blog/");
}

#[test]
fn paginate_pattern_appends_page_segment() {
    assert_eq!(paginate_pattern("/blog/", 2), "/blog/page/2/");
    assert_eq!(paginate_pattern("/tags/:term/", 3), "/tags/:term/page/3/");
}

#[test]
fn paginate_pattern_page_zero_and_large_pages() {
    assert_eq!(paginate_pattern("/blog/", 0), "/blog/");
    assert_eq!(paginate_pattern("/blog", 120), "/blog/page/120/");
}

#[test]
fn to_url_index_html_root() {
    assert_eq!(to_url("index.html"), "/");
}

#[test]
fn to_url_index_html_nested() {
    assert_eq!(to_url("blog/page-1/index.html"), "/blog/page-1/");
}

#[test]
fn to_url_non_index() {
    assert_eq!(to_url("posts/p1.html"), "/posts/p1.html");
}

#[test]
fn to_url_top_level_xml() {
    assert_eq!(to_url("sitemap.xml"), "/sitemap.xml");
}

#[test]
fn alias_output_path_trailing_slash_appends_index() {
    assert_eq!(alias_output_path("/old-url/"), Some("old-url/index.html".to_string()));
}

#[test]
fn alias_output_path_no_extension_appends_index() {
    assert_eq!(alias_output_path("/old-url"), Some("old-url/index.html".to_string()));
}

#[test]
fn alias_output_path_literal_file() {
    assert_eq!(alias_output_path("/posts/legacy.html"), Some("posts/legacy.html".to_string()));
    assert_eq!(alias_output_path("/feed.xml"), Some("feed.xml".to_string()));
}

#[test]
fn alias_output_path_strips_leading_slash() {
    assert_eq!(alias_output_path("old-url/"), Some("old-url/index.html".to_string()));
}

#[test]
fn alias_output_path_leaves_colon_literal() {
    assert_eq!(alias_output_path("/2019/:weird/"), Some("2019/:weird/index.html".to_string()));
}

#[test]
fn alias_output_path_rejects_parent_dir() {
    assert_eq!(alias_output_path("/../escape/"), None);
    assert_eq!(alias_output_path("/a/../../b"), None);
}

#[test]
fn alias_output_path_rejects_empty() {
    assert_eq!(alias_output_path(""), None);
    assert_eq!(alias_output_path("   "), None);
}

#[test]
fn alias_output_path_root_is_index() {
    assert_eq!(alias_output_path("/"), Some("index.html".to_string()));
    assert_eq!(alias_output_path("  /x.xml  "), Some("x.xml".to_string()));
}
