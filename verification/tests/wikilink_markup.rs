use comrak::nodes::{AstNode, NodeValue};
use italic::date::Date;
use italic::doc::DocMeta;
use italic::permalink::default_for;
use italic::wikilink::{build_stem_index, link_for};

fn doc_at(id_path: &str) -> DocMeta {
    DocMeta {
        id_path: id_path.to_string(),
        output_path: default_for(id_path),
        title: String::new(),
        summary: String::new(),
        terms: Vec::new(),
        date: Date::epoch(),
        updated: Date::epoch(),
    }
}

fn doc_with_permalink(id_path: &str, output_path: &str) -> DocMeta {
    let mut d = doc_at(id_path);
    d.output_path = output_path.to_string();
    d
}

fn node_text<'a>(node: &'a AstNode<'a>) -> String {
    let mut s = String::new();
    for child in node.descendants().skip(1) {
        if let NodeValue::Text(ref t) = child.data.borrow().value {
            s.push_str(t);
        }
    }
    s
}

/// Render Markdown, replacing each parsed wikilink with the library's markup
/// (spliced in after rendering, through a placeholder text node).
fn render_md(body: &str, source_id: &str, docs: &Vec<DocMeta>) -> (String, Vec<String>) {
    let arena = comrak::Arena::new();
    let mut options = comrak::Options::default();
    options.extension.wikilinks_title_after_pipe = true;
    let root = comrak::parse_document(&arena, body, &options);
    let stem_index = build_stem_index(docs);
    let mut links: Vec<String> = Vec::new();
    let mut pieces: Vec<String> = Vec::new();
    let nodes: Vec<_> =
        root.descendants().filter(|n| matches!(n.data.borrow().value, NodeValue::WikiLink(_))).collect();
    for node in nodes {
        let target = match &node.data.borrow().value {
            NodeValue::WikiLink(w) => w.url.clone(),
            _ => continue,
        };
        let display = node_text(node);
        let (html, _) = link_for(&target, &display, source_id, &stem_index, &mut links);
        for child in node.children().collect::<Vec<_>>() {
            child.detach();
        }
        node.data.borrow_mut().value = NodeValue::Text(format!("WIKILINKPIECE{}END", pieces.len()).into());
        pieces.push(html);
    }
    let mut out = String::new();
    comrak::format_html(root, &options, &mut out).unwrap();
    for (i, html) in pieces.iter().enumerate() {
        out = out.replace(&format!("WIKILINKPIECE{}END", i), html);
    }
    (out, links)
}

#[test]
fn resolves_same_dir() {
    let docs = vec![doc_at("blog/a.md"), doc_at("blog/b.md")];
    let (out, links) = render_md("see [[b]]", "blog/a.md", &docs);
    assert!(out.contains(r#"<a class="wikilink" href="/blog/b.html">b</a>"#));
    assert_eq!(links, vec!["blog/b.md".to_string()]);
}

#[test]
fn walks_to_parent() {
    let docs = vec![doc_at("blog/2025/deep.md"), doc_at("hello.md")];
    let (out, links) = render_md("see [[hello]]", "blog/2025/deep.md", &docs);
    assert!(out.contains(r#"href="/hello.html""#));
    assert_eq!(links, vec!["hello.md".to_string()]);
}

#[test]
fn walks_multiple_levels() {
    let docs = vec![doc_at("a/b/c/d.md"), doc_at("top.md")];
    let (out, _) = render_md("[[top]]", "a/b/c/d.md", &docs);
    assert!(out.contains(r#"href="/top.html""#));
}

#[test]
fn uses_display_text() {
    let docs = vec![doc_at("a.md"), doc_at("b.md")];
    let (out, _) = render_md("[[b|click here]]", "a.md", &docs);
    assert!(out.contains(r#"<a class="wikilink" href="/b.html">click here</a>"#));
}

#[test]
fn unresolved_emits_nolink_span() {
    let docs = vec![doc_at("a.md")];
    let (out, links) = render_md("[[Missing]]", "a.md", &docs);
    assert!(out.contains(r#"<span class="nolink">Missing</span>"#));
    assert!(links.is_empty());
}

#[test]
fn records_links() {
    let docs = vec![doc_at("a.md"), doc_at("b.md"), doc_at("c.md")];
    let (_, links) = render_md("[[b]] and [[c]]", "a.md", &docs);
    assert_eq!(links, vec!["b.md".to_string(), "c.md".to_string()]);
}

#[test]
fn dedups_links() {
    let docs = vec![doc_at("a.md"), doc_at("b.md")];
    let (_, links) = render_md("[[b]] [[b]] [[b|again]]", "a.md", &docs);
    assert_eq!(links, vec!["b.md".to_string()]);
}

#[test]
fn display_does_not_emit_raw_html() {
    let docs = vec![doc_at("a.md"), doc_at("b.md")];
    let (out, _) = render_md("[[b|<script>alert(1)</script>]]", "a.md", &docs);
    assert!(!out.contains("<script>"));
}

#[test]
fn wikilink_inside_code_fence_is_not_linked() {
    let docs = vec![doc_at("a.md"), doc_at("b.md")];
    let (out, links) = render_md("```\n[[b]]\n```", "a.md", &docs);
    assert!(!out.contains("wikilink"));
    assert!(out.contains("[[b]]"));
    assert!(links.is_empty());
}

#[test]
fn wikilink_inside_inline_code_is_not_linked() {
    let docs = vec![doc_at("a.md"), doc_at("b.md")];
    let (out, links) = render_md("use `[[b]]` syntax", "a.md", &docs);
    assert!(!out.contains("wikilink"));
    assert!(links.is_empty());
}

#[test]
fn uses_to_url_for_index_html_dirs() {
    let docs = vec![doc_at("a.md"), doc_with_permalink("b.md", "blog/b/index.html")];
    let (out, _) = render_md("[[b]]", "a.md", &docs);
    assert!(out.contains(r#"href="/blog/b/""#));
}
