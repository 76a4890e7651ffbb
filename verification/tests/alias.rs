use italic::alias::{alias_stubs, escape_html, json_string, make_stub, render_stub};
use italic::doc::Doc;

#[test]
fn stub_contains_refresh_canonical_and_js() {
    let html = render_stub("My Post", "/blog/new/", "https://x.com/blog/new/");
    assert!(html.contains("<meta http-equiv=\"refresh\" content=\"0; url=/blog/new/\">"));
    assert!(html.contains("<link rel=\"canonical\" href=\"https://x.com/blog/new/\">"));
    assert!(html.contains("location.replace(\"/blog/new/\" + location.hash);"));
    assert!(html.contains("<title>My Post</title>"));
}

#[test]
fn stub_escapes_title_and_target() {
    let html = render_stub("A & B <tag>", "/a&b/", "/a&b/");
    assert!(html.contains("<title>A &amp; B &lt;tag&gt;</title>"));
    assert!(html.contains("href=\"/a&amp;b/\""));
    assert!(html.contains("location.replace(\"/a\\u0026b/\" + location.hash);"));
}

#[test]
fn escape_html_escapes_quotes() {
    assert_eq!(escape_html("a'b\"c"), "a&#x27;b&quot;c");
}

#[test]
fn json_string_escapes_controls_and_markup() {
    assert_eq!(json_string("a\"b\\c\nd\te\u{1}<>&"), "\"a\\\"b\\\\c\\nd\\te\\u0001\\u003c\\u003e\\u0026\"");
    assert_eq!(json_string(""), "\"\"");
    assert_eq!(json_string("\u{1f}"), "\"\\u001f\"");
}

fn doc(id: &str, out: &str, title: &str) -> Doc {
    let mut d = Doc::default();
    d.id_path = id.to_string();
    d.output_path = out.to_string();
    d.title = title.to_string();
    d
}

#[test]
fn make_stub_targets_canonical_url() {
    let d = doc("posts/new.md", "posts/new/index.html", "New");
    let o = make_stub("/blog", Some("https://x.com"), &d, "/old/").unwrap();
    assert_eq!(o.output_path, "old/index.html");
    assert_eq!(o.id_path, "posts/new.md");
    assert!(o.content.contains("url=/blog/posts/new/"));
    assert!(o.content.contains("href=\"https://x.com/blog/posts/new/\""));
    assert!(make_stub("", None, &d, "   ").is_none());
    assert!(make_stub("", None, &d, "../escape").is_none());
}

use italic::yaml::{Mapping, Yaml};
fn conv(v: &serde_yaml_ng::Value) -> Yaml {
    match v {
        serde_yaml_ng::Value::Null => Yaml::Null,
        serde_yaml_ng::Value::Bool(b) => Yaml::Bool(*b),
        serde_yaml_ng::Value::Number(n) => {
            if let Some(i) = n.as_i64() {
                Yaml::Int(i as i128)
            } else if let Some(u) = n.as_u64() {
                Yaml::Int(u as i128)
            } else {
                Yaml::Float(n.to_string())
            }
        }
        serde_yaml_ng::Value::String(s) => Yaml::Str(s.clone()),
        serde_yaml_ng::Value::Sequence(l) => Yaml::List(l.iter().map(conv).collect()),
        serde_yaml_ng::Value::Mapping(m) => Yaml::Dict(m.iter().map(|(k, v)| (conv(k), conv(v))).collect()),
        serde_yaml_ng::Value::Tagged(t) => Yaml::Tagged(t.tag.to_string(), Box::new(conv(&t.value))),
    }
}

fn yaml_mapping(s: &str) -> Mapping {
    let v: serde_yaml_ng::Value = serde_yaml_ng::from_str(s).unwrap();
    match conv(&v) {
        Yaml::Dict(m) => m,
        Yaml::Null => Vec::new(),
        _ => panic!("not a mapping"),
    }
}

fn split_source(source: &str) -> (Mapping, String) {
    match italic::frontmatter::split(source) {
        Some((y, b)) => (yaml_mapping(&y), b),
        None => (Vec::new(), source.to_string()),
    }
}

fn str_at<'a>(m: &'a Mapping, key: &str) -> Option<&'a str> {
    italic::yaml::get(m, key).and_then(|v| italic::yaml::as_str(v))
}

#[test]
fn alias_stubs_follow_doc_then_alias_order() {
    let mut a = doc("a.md", "a.html", "A");
    a.data = yaml_mapping("aliases:\n  - /old-a/\n  - 7\n  - /older-a.html\n");
    let b = doc("b.md", "b.html", "B");
    let mut c = doc("c.md", "c.html", "C");
    c.data = yaml_mapping("aliases: [\"\", old-c]\n");
    let outs = alias_stubs("", None, &vec![&a, &b, &c]);
    let paths: Vec<&str> = outs.iter().map(|o| o.output_path.as_str()).collect();
    assert_eq!(paths, vec!["old-a/index.html", "older-a.html", "old-c/index.html"]);
    let _ = str_at(&a.data, "title");
    let _ = split_source("");
}
