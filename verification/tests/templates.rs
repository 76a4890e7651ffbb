use italic::doc::{is_content_path, is_draft};
use italic::site_data::data_key;
use italic::templates::{is_html_or_xml, macro_preamble, rel_template_name, scaffold_source};
use italic::yaml::Yaml;

fn names(v: &[&str]) -> Vec<String> {
    v.iter().map(|s| s.to_string()).collect()
}

#[test]
fn macro_preamble_is_sorted_by_stem() {
    let p = macro_preamble(&names(&["macros/twitter.html", "post.html", "macros/aside.html"]));
    assert_eq!(
        p,
        "{% import \"macros/aside.html\" as aside %}\n{% import \"macros/twitter.html\" as twitter %}\n"
    );
}

#[test]
fn macro_preamble_ignores_non_macro_templates() {
    assert_eq!(macro_preamble(&names(&["macros/notes.md", "base.html", "macros/sub/x.html"])), "");
    assert_eq!(
        macro_preamble(&names(&["macros/notes.md", "macros/real.html"])),
        "{% import \"macros/real.html\" as real %}\n"
    );
    assert_eq!(macro_preamble(&Vec::new()), "");
}

#[test]
fn template_files_and_names() {
    assert!(is_html_or_xml("a/b.html"));
    assert!(is_html_or_xml("feed.xml"));
    assert!(!is_html_or_xml("notes.md"));
    assert_eq!(rel_template_name("partials/nav.html"), "partials/nav.html");
    assert_eq!(rel_template_name("partials//nav.html"), "partials/nav.html");
    assert_eq!(scaffold_source(Some("themes/demo")), Some("themes/demo/content".to_string()));
    assert_eq!(scaffold_source(None), None);
}

#[test]
fn data_files_are_keyed_by_stem() {
    assert_eq!(data_key("authors.yaml"), Some("authors".to_string()));
    assert_eq!(data_key("menu.yml"), Some("menu".to_string()));
    assert_eq!(data_key("notes.txt"), None);
    assert_eq!(data_key("yaml"), None);
}

#[test]
fn content_files_and_drafts() {
    assert!(is_content_path("posts/a.md"));
    assert!(is_content_path("page.html"));
    assert!(is_content_path("data.yaml"));
    assert!(!is_content_path("data.yml"));
    assert!(!is_content_path("image.png"));
    let s = |t: &str| Yaml::Str(t.to_string());
    assert!(is_draft(&vec![(s("draft"), Yaml::Bool(true))]));
    assert!(!is_draft(&vec![(s("draft"), Yaml::Bool(false))]));
    assert!(!is_draft(&vec![(s("draft"), s("true"))]));
    assert!(!is_draft(&Vec::new()));
}
