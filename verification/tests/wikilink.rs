use italic::date::Date;
use italic::doc::DocMeta;
use italic::permalink::default_for;
use italic::wikilink::{build_stem_index, dir_distance, link_for, prefix_matches, render_link, render_nolink, resolve, split_prefix_stem};

fn doc_at(id_path: &str) -> DocMeta {
    DocMeta {
        id_path: id_path.to_string(),
        output_path: default_for(id_path),
        title: String::new(),
        summary: String::new(),
        terms: Vec::new(),
        date: Date::epoch(),
        updated: Date::epoch(),
    }
}

fn doc_with_permalink(id_path: &str, output_path: &str) -> DocMeta {
    let mut d = doc_at(id_path);
    d.output_path = output_path.to_string();
    d
}

fn resolve_id(target: &str, source_id: &str, docs: &Vec<DocMeta>) -> Option<String> {
    let idx = build_stem_index(docs);
    resolve(target, source_id, &idx).map(|d| d.id_path.clone())
}

#[test]
fn dir_distance_basics() {
    assert_eq!(dir_distance("blog/2025", "blog/2025"), 0);
    assert_eq!(dir_distance("blog/2025", "blog"), 1);
    assert_eq!(dir_distance("blog/2025", ""), 2);
    assert_eq!(dir_distance("blog/2025", "reference"), 3);
    assert_eq!(dir_distance("a/b/c", "a/x/y"), 4);
}

#[test]
fn wikilink_resolve_first_match_wins_closer_dir() {
    let docs = vec![doc_at("hello.md"), doc_at("blog/hello.md")];
    let hit = resolve_id("hello", "blog/post.md", &docs).unwrap();
    assert_eq!(hit, "blog/hello.md");
}

#[test]
fn wikilink_resolve_slugifies_target() {
    let docs = vec![doc_at("hello-world.md")];
    let hit = resolve_id("Hello World", "a.md", &docs).unwrap();
    assert_eq!(hit, "hello-world.md");
}

#[test]
fn wikilink_resolve_returns_none_when_no_match() {
    let docs = vec![doc_at("other.md")];
    assert!(resolve_id("missing", "a.md", &docs).is_none());
}

#[test]
fn resolve_finds_cross_subtree_neighbor() {
    let docs = vec![doc_at("reference/glossary.md")];
    let hit = resolve_id("Glossary", "blog/2025/post.md", &docs).unwrap();
    assert_eq!(hit, "reference/glossary.md");
}

#[test]
fn resolve_picks_nearest_when_ambiguous() {
    let docs = vec![doc_at("reference/glossary.md"), doc_at("blog/glossary.md")];
    let hit = resolve_id("Glossary", "blog/2025/post.md", &docs).unwrap();
    assert_eq!(hit, "blog/glossary.md");
}

#[test]
fn resolve_lexicographic_tiebreaker_on_equal_distance() {
    let docs = vec![doc_at("zeta/glossary.md"), doc_at("alpha/glossary.md")];
    let hit = resolve_id("Glossary", "root.md", &docs).unwrap();
    assert_eq!(hit, "alpha/glossary.md");
}

#[test]
fn resolve_explicit_prefix_picks_prefix_match_over_closer() {
    let docs = vec![doc_at("blog/glossary.md"), doc_at("reference/glossary.md")];
    let hit = resolve_id("reference/Glossary", "blog/2025/post.md", &docs).unwrap();
    assert_eq!(hit, "reference/glossary.md");
}

#[test]
fn resolve_explicit_prefix_no_fallback_to_bare_stem() {
    let docs = vec![doc_at("hello.md")];
    assert!(resolve_id("missing/Hello", "a.md", &docs).is_none());
}

#[test]
fn resolve_slugifies_prefix_components() {
    let docs = vec![doc_at("blog-posts/hello.md")];
    let hit = resolve_id("Blog Posts/Hello", "a.md", &docs).unwrap();
    assert_eq!(hit, "blog-posts/hello.md");
}

#[test]
fn resolve_root_anchored_prefix() {
    let docs = vec![doc_at("blog/hello.md"), doc_at("hello.md")];
    let hit = resolve_id("/Hello", "blog/post.md", &docs).unwrap();
    assert_eq!(hit, "hello.md");
}

#[test]
fn split_prefix_stem_splits_at_last_slash() {
    assert_eq!(split_prefix_stem("reference/Glossary"), (Some("reference".to_string()), "Glossary".to_string()));
    assert_eq!(split_prefix_stem("Hello"), (None, "Hello".to_string()));
    assert_eq!(split_prefix_stem("/Hello"), (Some(String::new()), "Hello".to_string()));
}

#[test]
fn prefix_matches_slugifies_both_sides() {
    assert!(prefix_matches("blog-posts", "Blog Posts"));
    assert!(prefix_matches("", ""));
    assert!(prefix_matches("a/b", "/a//b/"));
    assert!(!prefix_matches("a", "a/b"));
}

#[test]
fn render_link_and_nolink_escape() {
    assert_eq!(render_link("/b.html", "click here"), "<a class=\"wikilink\" href=\"/b.html\">click here</a>");
    assert_eq!(render_nolink("<b>"), "<span class=\"nolink\">&lt;b&gt;</span>");
}

#[test]
fn link_for_records_each_target_once() {
    let idx = build_stem_index(&vec![doc_at("a.md"), doc_with_permalink("b.md", "b/index.html")]);
    let mut links: Vec<String> = Vec::new();
    let (html, ok) = link_for("b", "B", "a.md", &idx, &mut links);
    assert!(ok);
    assert_eq!(html, "<a class=\"wikilink\" href=\"/b/\">B</a>");
    let (_, ok2) = link_for("b", "again", "a.md", &idx, &mut links);
    assert!(ok2);
    assert_eq!(links, vec!["b.md".to_string()]);
    let (html3, ok3) = link_for("nope", "Nope", "a.md", &idx, &mut links);
    assert!(!ok3);
    assert_eq!(html3, "<span class=\"nolink\">Nope</span>");
    assert_eq!(links.len(), 1);
}
