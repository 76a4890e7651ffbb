use comrak::nodes::NodeValue;
use italic::hashtag::{is_tag_char, scan};

/// Render Markdown, pulling hashtags out of every text node.
fn run(body: &str) -> (String, Vec<String>) {
    let arena = comrak::Arena::new();
    let options = comrak::Options::default();
    let root = comrak::parse_document(&arena, body, &options);
    let mut tags: Vec<String> = Vec::new();
    let nodes: Vec<_> = root.descendants().filter(|n| matches!(n.data.borrow().value, NodeValue::Text(_))).collect();
    for node in nodes {
        let text = match &node.data.borrow().value {
            NodeValue::Text(t) => t.to_string(),
            _ => continue,
        };
        let (stripped, found) = scan(&text);
        if found.is_empty() {
            continue;
        }
        tags.extend(found);
        node.data.borrow_mut().value = NodeValue::Text(stripped.into());
    }
    let mut out = String::new();
    comrak::format_html(root, &options, &mut out).unwrap();
    (out, tags)
}

#[test]
fn code_fence_stays_literal() {
    let (html, tags) = run("```\n#nope\n```");
    assert!(tags.is_empty());
    assert!(html.contains("#nope"));
}

#[test]
fn inline_code_stays_literal() {
    let (html, tags) = run("use `#nope` here");
    assert!(tags.is_empty());
    assert!(html.contains("#nope"));
}

#[test]
fn heading_marker_is_not_a_tag() {
    let (html, tags) = run("# Heading\n\nbody");
    assert!(tags.is_empty());
    assert!(html.contains("<h1>Heading</h1>"));
}

#[test]
fn rendered_text_loses_its_tags() {
    let (html, tags) = run("Loving #rust here");
    assert_eq!(tags, vec!["rust"]);
    assert!(html.contains("Loving here"));
}

#[test]
fn collapses_surrounding_whitespace() {
    let (out, tags) = scan("a #foo b");
    assert_eq!(tags, vec!["foo"]);
    assert_eq!(out, "a b");
}

#[test]
fn leading_tag_drops_following_space() {
    let (out, tags) = scan("#foo bar");
    assert_eq!(tags, vec!["foo"]);
    assert_eq!(out, "bar");
}

#[test]
fn trailing_punctuation_stays() {
    let (out, tags) = scan("end with #foo.");
    assert_eq!(tags, vec!["foo"]);
    assert_eq!(out, "end with .");
}

#[test]
fn extracts_and_strips_simple_tag() {
    let (out, tags) = scan("Loving #rust here");
    assert_eq!(tags, vec!["rust"]);
    assert!(!out.contains("#rust"));
    assert_eq!(out, "Loving here");
}

#[test]
fn allows_slug_paths() {
    let (_, tags) = scan("see #project/mug");
    assert_eq!(tags, vec!["project/mug"]);
}

#[test]
fn requires_word_boundary() {
    let (out, tags) = scan("see page#section for more");
    assert!(tags.is_empty());
    assert_eq!(out, "see page#section for more");
}

#[test]
fn ignores_pure_numeric() {
    let (out, tags) = scan("fixed in #123 today");
    assert!(tags.is_empty());
    assert!(out.contains("#123"));
}

#[test]
fn multiple_tags_in_one_node() {
    let (out, tags) = scan("tagged #alpha and #beta done");
    assert_eq!(tags, vec!["alpha", "beta"]);
    assert_eq!(out, "tagged and done");
}

#[test]
fn tag_trims_dashes_and_slashes() {
    let (out, tags) = scan("x #-/a-b/- y");
    assert_eq!(tags, vec!["a-b"]);
    assert_eq!(out, "x y");
}

#[test]
fn bare_hash_is_kept() {
    let (out, tags) = scan("a # b");
    assert!(tags.is_empty());
    assert_eq!(out, "a # b");
}

#[test]
fn unicode_whitespace_is_a_boundary() {
    let (out, tags) = scan("a\u{3000}#tag\u{3000}b");
    assert_eq!(tags, vec!["tag"]);
    assert_eq!(out, "a\u{3000}b");
}

#[test]
fn tag_char_classes() {
    assert!(is_tag_char('a') && is_tag_char('Z') && is_tag_char('0'));
    assert!(is_tag_char('_') && is_tag_char('-') && is_tag_char('/'));
    assert!(!is_tag_char('.') && !is_tag_char('é') && !is_tag_char(' '));
}
