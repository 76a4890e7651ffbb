use italic::doc::{Doc, DocMeta};
use italic::permalink::default_for;
use italic::wikitext::{expand, resolve, split_target_display};

fn source_doc(id_path: &str) -> Doc {
    let mut d = Doc::default();
    d.id_path = id_path.to_string();
    d.output_path = default_for(id_path);
    d
}

fn doc_at(id_path: &str) -> DocMeta {
    DocMeta::from_doc(&source_doc(id_path))
}

fn doc_with_permalink(id_path: &str, output_path: &str) -> DocMeta {
    let mut d = Doc::default();
    d.id_path = id_path.to_string();
    d.output_path = output_path.to_string();
    DocMeta::from_doc(&d)
}

#[test]
fn expand_resolves_same_dir() {
    let source = source_doc("blog/a.md");
    let docs = vec![DocMeta::from_doc(&source), doc_at("blog/b.md")];
    let (out, outlinks) = expand("see [[b]]", &source, &docs);
    assert_eq!(out, r#"see <a class="wikilink" href="/blog/b.html">b</a>"#);
    assert_eq!(outlinks, vec!["blog/b.md".to_string()]);
}

#[test]
fn expand_walks_to_parent() {
    let source = source_doc("blog/2025/deep.md");
    let docs = vec![DocMeta::from_doc(&source), doc_at("hello.md")];
    let (out, outlinks) = expand("see [[hello]]", &source, &docs);
    assert!(out.contains(r#"href="/hello.html""#));
    assert_eq!(outlinks, vec!["hello.md".to_string()]);
}

#[test]
fn expand_walks_multiple_levels() {
    let source = source_doc("a/b/c/d.md");
    let docs = vec![DocMeta::from_doc(&source), doc_at("top.md")];
    let (out, _) = expand("[[top]]", &source, &docs);
    assert!(out.contains(r#"href="/top.html""#));
}

#[test]
fn expand_uses_display_text() {
    let source = source_doc("a.md");
    let docs = vec![DocMeta::from_doc(&source), doc_at("b.md")];
    let (out, _) = expand("[[b|click here]]", &source, &docs);
    assert_eq!(out, r#"<a class="wikilink" href="/b.html">click here</a>"#);
}

#[test]
fn expand_unresolved_emits_nolink_span() {
    let source = source_doc("a.md");
    let docs = vec![DocMeta::from_doc(&source)];
    let (out, outlinks) = expand("[[Missing]]", &source, &docs);
    assert_eq!(out, r#"<span class="nolink">Missing</span>"#);
    assert!(outlinks.is_empty());
}

#[test]
fn expand_records_outlinks() {
    let source = source_doc("a.md");
    let docs = vec![DocMeta::from_doc(&source), doc_at("b.md"), doc_at("c.md")];
    let (_, outlinks) = expand("[[b]] and [[c]]", &source, &docs);
    assert_eq!(outlinks, vec!["b.md".to_string(), "c.md".to_string()]);
}

#[test]
fn expand_dedups_outlinks() {
    let source = source_doc("a.md");
    let docs = vec![DocMeta::from_doc(&source), doc_at("b.md")];
    let (_, outlinks) = expand("[[b]] [[b]] [[b|again]]", &source, &docs);
    assert_eq!(outlinks, vec!["b.md".to_string()]);
}

#[test]
fn expand_escapes_html_in_display() {
    let source = source_doc("a.md");
    let docs = vec![DocMeta::from_doc(&source), doc_at("b.md")];
    let (out, _) = expand("[[b|<script>]]", &source, &docs);
    assert!(out.contains("&lt;script&gt;"));
    assert!(!out.contains("<script>"));
}

#[test]
fn expand_ignores_newline_in_brackets() {
    let source = source_doc("a.md");
    let docs = vec![DocMeta::from_doc(&source), doc_at("b.md")];
    let (out, _) = expand("[[b\nfoo]]", &source, &docs);
    assert_eq!(out, "[[b\nfoo]]");
}

#[test]
fn expand_ignores_nested_open_bracket() {
    let source = source_doc("a.md");
    let docs = vec![DocMeta::from_doc(&source), doc_at("b.md")];
    let (out, _) = expand("[[[b]]", &source, &docs);
    assert_eq!(out, "[[[b]]");
}

#[test]
fn expand_handles_unmatched_open() {
    let source = source_doc("a.md");
    let docs = vec![DocMeta::from_doc(&source)];
    let (out, _) = expand("text [[ no close", &source, &docs);
    assert_eq!(out, "text [[ no close");
}

#[test]
fn expand_passes_through_no_wikilinks() {
    let source = source_doc("a.md");
    let docs = vec![DocMeta::from_doc(&source)];
    let (out, outlinks) = expand("plain markdown text", &source, &docs);
    assert_eq!(out, "plain markdown text");
    assert!(outlinks.is_empty());
}

#[test]
fn expand_uses_to_url_for_index_html_dirs() {
    let source = source_doc("a.md");
    let docs = vec![DocMeta::from_doc(&source), doc_with_permalink("b.md", "blog/b/index.html")];
    let (out, _) = expand("[[b]]", &source, &docs);
    assert!(out.contains(r#"href="/blog/b/""#));
}

// --- resolution by walking up the directory chain --------------------------

#[test]
fn chain_resolve_first_match_wins_closer_dir() {
    let docs = vec![doc_at("hello.md"), doc_at("blog/hello.md")];
    let hit = resolve("hello", "blog/post.md", &docs).unwrap();
    assert_eq!(docs[hit].id_path, "blog/hello.md");
}

#[test]
fn chain_resolve_slugifies_target() {
    let docs = vec![doc_at("hello-world.md")];
    let hit = resolve("Hello World", "a.md", &docs).unwrap();
    assert_eq!(docs[hit].id_path, "hello-world.md");
}

#[test]
fn chain_resolve_returns_none_when_no_match() {
    let docs = vec![doc_at("other.md")];
    assert!(resolve("missing", "a.md", &docs).is_none());
}

#[test]
fn chain_resolve_does_not_look_into_sibling_dirs() {
    let docs = vec![doc_at("notes/hello.md")];
    assert!(resolve("hello", "blog/post.md", &docs).is_none());
    assert!(resolve("!!!", "blog/post.md", &docs).is_none());
}

#[test]
fn split_trims_target_and_display() {
    let cs: Vec<char> = " Some Page | shown text ".chars().collect();
    assert_eq!(split_target_display(&cs), ("Some Page".to_string(), "shown text".to_string()));
    let cs: Vec<char> = " Page ".chars().collect();
    assert_eq!(split_target_display(&cs), ("Page".to_string(), "Page".to_string()));
    let cs: Vec<char> = "a|b|c".chars().collect();
    assert_eq!(split_target_display(&cs), ("a".to_string(), "b|c".to_string()));
}

#[test]
fn each_link_is_rendered_and_each_target_recorded_once() {
    let docs = vec![doc_at("x/b.md"), doc_at("c.md")];
    let (out, outlinks) = expand("[[b]] then [[c|C]] then [[b]]", &source_doc("x/q.md"), &docs);
    assert_eq!(
        out,
        r#"<a class="wikilink" href="/x/b.html">b</a> then <a class="wikilink" href="/c.html">C</a> then <a class="wikilink" href="/x/b.html">b</a>"#
    );
    assert_eq!(outlinks, vec!["x/b.md".to_string(), "c.md".to_string()]);
}
