use italic::defaults::{Defaults, DefaultsError};
use italic::doc::Doc;
use italic::doc_index::DocIndex;
use italic::query::Query;
use italic::yaml::{Mapping, Yaml};

fn conv(v: &serde_yaml_ng::Value) -> Yaml {
    match v {
        serde_yaml_ng::Value::Null => Yaml::Null,
        serde_yaml_ng::Value::Bool(b) => Yaml::Bool(*b),
        serde_yaml_ng::Value::Number(n) => {
            if let Some(i) = n.as_i64() {
                Yaml::Int(i as i128)
            } else if let Some(u) = n.as_u64() {
                Yaml::Int(u as i128)
            } else {
                Yaml::Float(n.to_string())
            }
        }
        serde_yaml_ng::Value::String(s) => Yaml::Str(s.clone()),
        serde_yaml_ng::Value::Sequence(l) => Yaml::List(l.iter().map(conv).collect()),
        serde_yaml_ng::Value::Mapping(m) => Yaml::Dict(m.iter().map(|(k, v)| (conv(k), conv(v))).collect()),
        serde_yaml_ng::Value::Tagged(t) => Yaml::Tagged(t.tag.to_string(), Box::new(conv(&t.value))),
    }
}

fn yaml_mapping(s: &str) -> Mapping {
    let v: serde_yaml_ng::Value = serde_yaml_ng::from_str(s).unwrap();
    match conv(&v) {
        Yaml::Dict(m) => m,
        Yaml::Null => Vec::new(),
        _ => panic!("not a mapping"),
    }
}

fn split_source(source: &str) -> (Mapping, String) {
    match italic::frontmatter::split(source) {
        Some((y, b)) => (yaml_mapping(&y), b),
        None => (Vec::new(), source.to_string()),
    }
}

fn str_at<'a>(m: &'a Mapping, key: &str) -> Option<&'a str> {
    italic::yaml::get(m, key).and_then(|v| italic::yaml::as_str(v))
}

fn defaults(s: &str) -> Defaults {
    Defaults::from_yaml_mapping(&yaml_mapping(s)).unwrap()
}

#[test]
fn empty_defaults_apply_nothing() {
    let d = Defaults::empty();
    let mut data: Mapping = Vec::new();
    assert!(!d.apply("posts/a.md", &mut data));
    assert!(data.is_empty());
}

#[test]
fn from_yaml_mapping_rejects_invalid_glob() {
    let m = yaml_mapping("\"posts/[.md\":\n  permalink: x\n");
    assert_eq!(Defaults::from_yaml_mapping(&m).err(), Some(DefaultsError::InvalidGlob("posts/[.md".to_string())));
}

#[test]
fn from_yaml_mapping_rejects_non_mapping_value() {
    let m = yaml_mapping("\"posts/*.md\": not-a-map\n");
    assert_eq!(Defaults::from_yaml_mapping(&m).err(), Some(DefaultsError::ValueNotMapping("posts/*.md".to_string())));
    let k = yaml_mapping("7: {a: 1}\n");
    assert_eq!(Defaults::from_yaml_mapping(&k).err(), Some(DefaultsError::KeyNotString));
}

#[test]
fn apply_fills_missing_key() {
    let d = defaults("\"posts/*.md\":\n  permalink: \":yyyy/:mm/:dd/:slug\"\n");
    let mut data: Mapping = Vec::new();
    assert!(d.apply("posts/hello.md", &mut data));
    assert_eq!(str_at(&data, "permalink"), Some(":yyyy/:mm/:dd/:slug"));
}

#[test]
fn document_frontmatter_wins_over_default() {
    let d = defaults("\"posts/*.md\":\n  permalink: \":slug\"\n");
    let mut data = yaml_mapping("permalink: /custom/\n");
    assert!(!d.apply("posts/hello.md", &mut data));
    assert_eq!(str_at(&data, "permalink"), Some("/custom/"));
}

#[test]
fn last_matching_rule_wins_among_defaults() {
    let d = defaults("\"posts/*.md\":\n  permalink: first\n\"posts/special.md\":\n  permalink: second\n");
    let mut data: Mapping = Vec::new();
    assert!(d.apply("posts/special.md", &mut data));
    assert_eq!(str_at(&data, "permalink"), Some("second"));
}

#[test]
fn non_matching_glob_inserts_nothing() {
    let d = defaults("\"posts/*.md\":\n  permalink: x\n");
    let mut data: Mapping = Vec::new();
    assert!(!d.apply("pages/about.md", &mut data));
    assert!(data.is_empty());
}

#[test]
fn literal_separator_does_not_cross_slash() {
    let d = defaults("\"posts/*.md\":\n  permalink: x\n");
    let mut shallow: Mapping = Vec::new();
    assert!(d.apply("posts/a.md", &mut shallow));
    let mut nested: Mapping = Vec::new();
    assert!(!d.apply("posts/sub/b.md", &mut nested));
}

fn glob(pattern: &str) -> Query {
    let mut q = Query::default_query();
    q.path = Some(pattern.to_string());
    q
}

fn doc(id_path: &str) -> Doc {
    Doc::new(id_path.to_string(), String::new(), Vec::new())
}

fn build(collections: Vec<(&str, Query)>, defaults: Vec<(&str, &str)>, taxonomies: Vec<String>, docs: Vec<Doc>) -> DocIndex {
    let mut index = DocIndex::new();
    for d in docs {
        index.insert(d);
    }
    for (name, q) in &collections {
        index.define_collection(name, q);
    }
    let defs: Vec<(String, Mapping)> = defaults.into_iter().map(|(n, fm)| (n.to_string(), yaml_mapping(fm))).collect();
    index.apply_collection_defaults(&defs, &taxonomies);
    index.define_taxonomies(&taxonomies);
    index
}

#[test]
fn later_defaults_entry_wins_on_overlap() {
    let index = build(
        vec![("all", glob("*.md")), ("special", glob("a.md"))],
        vec![("all", "template: base.html"), ("special", "template: special.html")],
        vec!["tags".to_string()],
        vec![doc("a.md"), doc("b.md")],
    );
    assert_eq!(index.doc("a.md").unwrap().template.as_deref(), Some("special.html"));
    assert_eq!(index.doc("b.md").unwrap().template.as_deref(), Some("base.html"));
}

#[test]
fn defaulted_tag_shows_up_in_taxonomy() {
    let index = build(
        vec![("posts", glob("posts/*.md"))],
        vec![("posts", "tags: [Rust]")],
        vec!["tags".to_string()],
        vec![doc("posts/p.md")],
    );
    let tags = index.get_taxonomy("tags").unwrap();
    let rust = italic::sorted::get(tags, "rust").unwrap();
    assert_eq!(rust, &vec!["posts/p.md".to_string()]);
}

#[test]
fn own_frontmatter_beats_default() {
    let mut d = doc("posts/p.md");
    d.data = yaml_mapping("template: own.html");
    d.template = Some("own.html".into());
    let index = build(
        vec![("posts", glob("posts/*.md"))],
        vec![("posts", "template: default.html")],
        vec!["tags".to_string()],
        vec![d],
    );
    assert_eq!(index.doc("posts/p.md").unwrap().template.as_deref(), Some("own.html"));
    let _ = split_source("");
}
