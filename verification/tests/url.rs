use italic::doc::{Doc, DocMeta};
use italic::entries::{entry_order, sort_dir};
use italic::html::{strip_tags, truncate_words, TRUNCATE_WORDS_DEFAULT};
use italic::query::SortDir;
use italic::site_data::data_key;
use italic::templates::macro_preamble;
use italic::url::{absolute_url, link_url, output_of, permalink_url, relative_url};

fn one_doc() -> Doc {
    let mut d = Doc::new("posts/hello.md".to_string(), String::new(), Vec::new());
    d.output_path = "posts/hello.html".to_string();
    d
}

fn one_doc_meta_snapshot() -> Vec<DocMeta> {
    vec![DocMeta::from_doc(&one_doc())]
}

/// The `permalink` filter: look the doc up, then build its URL.
fn permalink(site_url: Option<&str>, base_path: &str, id: &str) -> Option<String> {
    let metas = one_doc_meta_snapshot();
    output_of(&metas, id).map(|out| permalink_url(site_url, base_path, out))
}

/// The `link` filter: look the doc up, then build its root-relative URL.
fn link(base_path: &str, id: &str) -> Option<String> {
    let metas = one_doc_meta_snapshot();
    output_of(&metas, id).map(|out| link_url(base_path, out))
}

#[test]
fn markup_env_registers_permalink() {
    assert_eq!(permalink(None, "", "posts/hello.md"), Some("/posts/hello.html".to_string()));
}

#[test]
fn permalink_filter_errors_on_unknown_id_path() {
    assert_eq!(permalink(None, "", "missing.md"), None);
}

#[test]
fn permalink_with_site_url_and_base_path_is_absolute() {
    assert_eq!(
        permalink(Some("https://example.com"), "/blog", "posts/hello.md"),
        Some("https://example.com/blog/posts/hello.html".to_string())
    );
}

#[test]
fn permalink_without_site_url_falls_back_to_root_relative() {
    assert_eq!(permalink(None, "/blog", "posts/hello.md"), Some("/blog/posts/hello.html".to_string()));
}

#[test]
fn permalink_no_config_preserves_root_relative_output() {
    assert_eq!(permalink(None, "", "posts/hello.md"), Some("/posts/hello.html".to_string()));
}

#[test]
fn link_filter_returns_root_relative_with_base_path() {
    assert_eq!(link("/blog", "posts/hello.md"), Some("/blog/posts/hello.html".to_string()));
}

#[test]
fn link_filter_errors_on_unknown_id_path() {
    assert_eq!(link("", "missing.md"), None);
}

#[test]
fn relative_url_prepends_base_path() {
    assert_eq!(relative_url("/blog", "css/site.css"), "/blog/css/site.css");
}

#[test]
fn relative_url_handles_leading_slash_in_input() {
    assert_eq!(relative_url("/blog", "/css/site.css"), "/blog/css/site.css");
}

#[test]
fn relative_url_with_empty_base_path() {
    assert_eq!(relative_url("", "css/site.css"), "/css/site.css");
}

#[test]
fn absolute_url_prepends_site_url_and_base_path() {
    assert_eq!(absolute_url(Some("https://example.com"), "/blog", "feed.xml"), "https://example.com/blog/feed.xml");
}

#[test]
fn absolute_url_falls_back_without_site_url() {
    assert_eq!(absolute_url(None, "/blog", "feed.xml"), "/blog/feed.xml");
}

#[test]
fn markup_env_registers_all_four_url_filters() {
    let site = Some("https://example.com");
    assert_eq!(permalink(site, "/blog", "posts/hello.md"), Some("https://example.com/blog/posts/hello.html".to_string()));
    assert_eq!(link("/blog", "posts/hello.md"), Some("/blog/posts/hello.html".to_string()));
    assert_eq!(relative_url("/blog", "x.css"), "/blog/x.css");
    assert_eq!(absolute_url(site, "/blog", "x.css"), "https://example.com/blog/x.css");
}

#[test]
fn truncate_words_filter_on_markup_env() {
    assert_eq!(truncate_words("hello world foo bar baz", 15), "hello world…");
}

#[test]
fn truncate_words_filter_on_template_env() {
    assert_eq!(truncate_words("hello world foo bar baz", 15), "hello world…");
}

#[test]
fn truncate_words_filter_default_length_is_250() {
    let short = "a".repeat(100);
    assert_eq!(TRUNCATE_WORDS_DEFAULT, 250);
    assert_eq!(truncate_words(&short, TRUNCATE_WORDS_DEFAULT), short);
}

#[test]
fn truncate_words_composes_with_striptags() {
    let text = strip_tags("<p>hello world foo bar baz</p>");
    assert_eq!(truncate_words(&text, 15), "hello world…");
}

fn map_keys() -> Vec<String> {
    vec!["b".to_string(), "a".to_string(), "c".to_string()]
}

fn listed(keys: &[String], order: &[usize]) -> Vec<String> {
    order.iter().map(|&i| keys[i].clone()).collect()
}

#[test]
fn entries_sorts_map_by_key_ascending_by_default() {
    let keys = map_keys();
    let dir = sort_dir(None).unwrap();
    assert_eq!(dir, SortDir::Asc);
    assert_eq!(listed(&keys, &entry_order(&keys, dir)), vec!["a", "b", "c"]);
}

#[test]
fn entries_desc_reverses_key_order() {
    let keys = map_keys();
    let dir = sort_dir(Some("desc")).unwrap();
    assert_eq!(listed(&keys, &entry_order(&keys, dir)), vec!["c", "b", "a"]);
}

#[test]
fn entries_is_registered_on_markup_env() {
    let keys = map_keys();
    let dir = sort_dir(Some("asc")).unwrap();
    assert_eq!(listed(&keys, &entry_order(&keys, dir)), vec!["a", "b", "c"]);
}

#[test]
fn entries_rejects_unknown_sort_direction() {
    assert_eq!(sort_dir(Some("sideways")), None);
}

#[test]
fn entries_order_is_by_code_point() {
    let keys = vec!["b".to_string(), "B".to_string(), "ab".to_string(), "a".to_string(), "é".to_string()];
    let dir = sort_dir(None).unwrap();
    assert_eq!(listed(&keys, &entry_order(&keys, dir)), vec!["B", "a", "ab", "b", "é"]);
    assert_eq!(entry_order(&Vec::new(), SortDir::Desc), Vec::<usize>::new());
}

#[test]
fn markup_env_handles_missing_macros_dir() {
    assert_eq!(macro_preamble(&vec!["base.html".to_string()]), "");
}

#[test]
fn markup_env_macro_preamble_is_deterministic() {
    let names = vec!["macros/twitter.html".to_string(), "macros/aside.html".to_string()];
    assert_eq!(
        macro_preamble(&names),
        "{% import \"macros/aside.html\" as aside %}\n\
         {% import \"macros/twitter.html\" as twitter %}\n"
    );
}

#[test]
fn markup_env_ignores_non_html_files_in_macros_dir() {
    let names = vec!["macros/notes.md".to_string(), "macros/real.html".to_string()];
    assert_eq!(macro_preamble(&names), "{% import \"macros/real.html\" as real %}\n");
}

#[test]
fn site_macro_overrides_theme_macro_of_same_stem() {
    // The overlay keeps one template per name, so one import per stem.
    let names = vec!["macros/note.html".to_string()];
    assert_eq!(macro_preamble(&names), "{% import \"macros/note.html\" as note %}\n");
}

#[test]
fn yaml_file_loaded_at_stem() {
    assert_eq!(data_key("authors.yaml"), Some("authors".to_string()));
}

#[test]
fn both_yaml_and_yml_extensions_load() {
    assert_eq!(data_key("a.yaml"), Some("a".to_string()));
    assert_eq!(data_key("b.yml"), Some("b".to_string()));
}

#[test]
fn non_yaml_files_are_ignored() {
    assert_eq!(data_key("notes.txt"), None);
    assert_eq!(data_key("c.json"), None);
}
