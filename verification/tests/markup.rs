use italic::doc::{summary_after_render, Doc};
use italic::yaml::{Mapping, Yaml};

/// Render a doc's Markdown body and settle its summary, as the markup phase
/// does for a body with no template code.
fn render_doc(doc: &mut Doc) {
    let html = if doc.kind() == italic::doc::DocKind::Markdown {
        comrak::markdown_to_html(&doc.content, &comrak::Options::default())
    } else {
        doc.content.clone()
    };
    doc.summary = summary_after_render(doc.kind(), &doc.data, &doc.summary, &html);
    doc.content = html;
}

#[test]
fn markdown_doc_gets_fallback_summary() {
    let mut doc = Doc::new(
        "post.md".to_string(),
        "# Hello\n\nThis is the body of the post. It has several words.".to_string(),
        Vec::new(),
    );
    render_doc(&mut doc);
    assert!(!doc.summary.is_empty(), "expected a fallback summary");
    assert!(!doc.summary.contains('<'));
    assert!(!doc.summary.contains('>'));
    assert!(doc.summary.contains("This is the body"));
}

#[test]
fn fallback_summary_truncates_long_bodies() {
    let long_body: String = "word ".repeat(100);
    let mut doc = Doc::new("post.md".to_string(), long_body, Vec::new());
    render_doc(&mut doc);
    assert!(doc.summary.chars().count() <= 250);
    assert!(doc.summary.ends_with('…'));
}

#[test]
fn frontmatter_summary_is_preserved_verbatim() {
    let data: Mapping = vec![(Yaml::Str("summary".into()), Yaml::Str("Hand-written blurb.".into()))];
    let mut doc = Doc::new(
        "post.md".to_string(),
        "# Hello\n\nMuch longer body that would otherwise yield a different summary.".to_string(),
        data,
    );
    render_doc(&mut doc);
    assert_eq!(doc.summary, "Hand-written blurb.");
}

#[test]
fn raw_doc_without_frontmatter_summary_stays_empty() {
    let mut doc = Doc::new("page.html".to_string(), "<p>raw html body</p>".to_string(), Vec::new());
    render_doc(&mut doc);
    assert_eq!(doc.summary, "");
}

#[test]
fn yaml_doc_without_frontmatter_summary_stays_empty() {
    let mut doc = Doc::new("page.yaml".to_string(), "<p>yaml-derived body</p>".to_string(), Vec::new());
    render_doc(&mut doc);
    assert_eq!(doc.summary, "");
}

#[test]
fn a_summary_already_set_is_kept() {
    let mut doc = Doc::new("post.md".to_string(), "Body text.".to_string(), Vec::new());
    doc.summary = "Set before.".to_string();
    render_doc(&mut doc);
    assert_eq!(doc.summary, "Set before.");
}

#[test]
fn empty_frontmatter_summary_gets_fallback() {
    let data: Mapping = vec![(Yaml::Str("summary".to_string()), Yaml::Str(String::new()))];
    let mut doc = Doc::new("post.md".to_string(), "x".to_string(), data);
    render_doc(&mut doc);
    assert_eq!(doc.summary, "x\n");
}
