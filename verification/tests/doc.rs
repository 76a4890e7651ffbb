use italic::date::Date;
use italic::doc::{parse_date, uplift_terms, yaml_body, Doc, DocKind};
use italic::sorted::get;
use italic::yaml::{Mapping, Yaml};

fn conv(v: &serde_yaml_ng::Value) -> Yaml {
    match v {
        serde_yaml_ng::Value::Null => Yaml::Null,
        serde_yaml_ng::Value::Bool(b) => Yaml::Bool(*b),
        serde_yaml_ng::Value::Number(n) => {
            if let Some(i) = n.as_i64() {
                Yaml::Int(i as i128)
            } else if let Some(u) = n.as_u64() {
                Yaml::Int(u as i128)
            } else {
                Yaml::Float(n.to_string())
            }
        }
        serde_yaml_ng::Value::String(s) => Yaml::Str(s.clone()),
        serde_yaml_ng::Value::Sequence(l) => Yaml::List(l.iter().map(conv).collect()),
        serde_yaml_ng::Value::Mapping(m) => Yaml::Dict(m.iter().map(|(k, v)| (conv(k), conv(v))).collect()),
        serde_yaml_ng::Value::Tagged(t) => Yaml::Tagged(t.tag.to_string(), Box::new(conv(&t.value))),
    }
}

fn yaml_mapping(s: &str) -> Mapping {
    let v: serde_yaml_ng::Value = serde_yaml_ng::from_str(s).unwrap();
    match conv(&v) {
        Yaml::Dict(m) => m,
        Yaml::Null => Vec::new(),
        _ => panic!("not a mapping"),
    }
}

fn split_source(source: &str) -> (Mapping, String) {
    match italic::frontmatter::split(source) {
        Some((y, b)) => (yaml_mapping(&y), b),
        None => (Vec::new(), source.to_string()),
    }
}

fn str_at<'a>(m: &'a Mapping, key: &str) -> Option<&'a str> {
    italic::yaml::get(m, key).and_then(|v| italic::yaml::as_str(v))
}

fn tax() -> Vec<String> {
    vec!["tags".to_string()]
}

fn uplifted(id_path: &str, content: &str, data: Mapping, taxonomies: &Vec<String>) -> Doc {
    let mut d = Doc::new(id_path.to_string(), content.to_string(), data);
    d.uplift_frontmatter(taxonomies);
    d
}

fn term<'a>(d: &'a Doc, tax: &str, slug: &str) -> Option<&'a String> {
    get(&d.terms, tax).and_then(|b| get(b, slug))
}

fn bucket_len(d: &Doc, tax: &str) -> usize {
    get(&d.terms, tax).map(|b| b.len()).unwrap()
}

fn parse_doc(id: &str, source: &str) -> Doc {
    let (data, body) = split_source(source);
    Doc::new(id.to_string(), body, data)
}

fn parse_yaml_doc(id: &str, source: &str) -> Doc {
    let data = yaml_mapping(source);
    let body = yaml_body(&data);
    Doc::new(id.to_string(), body, data)
}

#[test]
fn default_doc_uses_unix_epoch() {
    let d = Doc::default();
    assert_eq!(d.date, Date::epoch());
    assert_eq!(d.updated, Date::epoch());
    assert_eq!(d.title, "");
    assert_eq!(d.summary, "");
    assert!(d.terms.is_empty());
    assert!(d.template.is_none());
}

#[test]
fn uplift_frontmatter_summary_from_frontmatter() {
    let d = uplifted("p.md", "", yaml_mapping("summary: Hand-written blurb.\n"), &tax());
    assert_eq!(d.summary, "Hand-written blurb.");
}

#[test]
fn uplift_frontmatter_defaults_summary_to_empty_when_missing() {
    let d = uplifted("p.md", "", Vec::new(), &tax());
    assert_eq!(d.summary, "");
}

#[test]
fn uplift_frontmatter_title_and_template() {
    let d = uplifted("post.md", "", yaml_mapping("title: Hi\ntemplate: base.html\n"), &tax());
    assert_eq!(d.title, "Hi");
    assert_eq!(d.template.as_deref(), Some("base.html"));
}

#[test]
fn uplift_frontmatter_tags_as_string_sequence() {
    let d = uplifted("p.md", "", yaml_mapping("tags: [rust, ssg, 7]\n"), &tax());
    assert_eq!(bucket_len(&d, "tags"), 2);
    assert_eq!(term(&d, "tags", "rust").map(|s| s.as_str()), Some("rust"));
    assert_eq!(term(&d, "tags", "ssg").map(|s| s.as_str()), Some("ssg"));
}

#[test]
fn uplift_frontmatter_custom_taxonomy_field() {
    let taxonomies = vec!["tags".to_string(), "categories".to_string()];
    let d = uplifted("p.md", "", yaml_mapping("categories: [Tech]\n"), &taxonomies);
    assert_eq!(term(&d, "categories", "tech").map(|s| s.as_str()), Some("Tech"));
    assert_eq!(bucket_len(&d, "tags"), 0);
}

#[test]
fn uplift_frontmatter_defaults_when_keys_missing() {
    let d = uplifted("p.md", "", Vec::new(), &tax());
    assert_eq!(d.title, "");
    assert_eq!(bucket_len(&d, "tags"), 0);
    assert!(d.template.is_none());
    assert_eq!(d.date, Date::epoch());
}

#[test]
fn new_preserves_keys_in_data() {
    let d = Doc::new("p.md".to_string(), String::new(), yaml_mapping("title: Hi\n"));
    assert_eq!(str_at(&d.data, "title"), Some("Hi"));
}

#[test]
fn output_path_swaps_extension_to_html() {
    let d = Doc::new("blog/post.md".to_string(), String::new(), Vec::new());
    assert_eq!(d.output_path, "blog/post.html");
}

#[test]
fn parse_date_accepts_rfc3339() {
    let m = yaml_mapping("date: \"2025-10-31T12:00:00Z\"\n");
    let dt = parse_date(&m, "date").unwrap();
    assert_eq!(dt.secs, 1761912000);
    assert_eq!((dt.year, dt.month, dt.day), (2025, 10, 31));
}

#[test]
fn parse_date_accepts_date_only() {
    let m = yaml_mapping("date: \"2025-10-31\"\n");
    let dt = parse_date(&m, "date").unwrap();
    assert_eq!(dt.secs, 1761868800);
    assert_eq!(dt.nanos, 0);
}

#[test]
fn parse_date_rejects_garbage() {
    let m = yaml_mapping("date: not a date\n");
    assert!(parse_date(&m, "date").is_none());
    assert!(parse_date(&Vec::new(), "date").is_none());
}

#[test]
fn parse_treats_missing_frontmatter_as_empty() {
    let d = parse_doc("p.md", "# Body\n");
    assert_eq!(d.content, "# Body\n");
    assert!(d.data.is_empty());
}

#[test]
fn kind_dispatches_on_extension() {
    let k = |p: &str| Doc::new(p.to_string(), String::new(), Vec::new()).kind();
    assert_eq!(k("p.md"), DocKind::Markdown);
    assert_eq!(k("p.html"), DocKind::Raw);
    assert_eq!(k("p.yaml"), DocKind::Yaml);
    assert_eq!(k("p.xml"), DocKind::Raw);
    assert_eq!(k("p"), DocKind::Raw);
}

#[test]
fn parse_yaml_extracts_content_and_uplifts() {
    let mut d = parse_yaml_doc("p.yaml", "title: Hi\ntags: [a, b]\ndate: 2025-10-31\ncontent: \"<p>body</p>\"\n");
    d.uplift_frontmatter(&tax());
    assert_eq!(d.title, "Hi");
    assert_eq!(term(&d, "tags", "a").map(|s| s.as_str()), Some("a"));
    assert_eq!(term(&d, "tags", "b").map(|s| s.as_str()), Some("b"));
    assert_eq!(d.date.secs, 1761868800);
    assert_eq!(d.content, "<p>body</p>");
}

#[test]
fn parse_yaml_defaults_content_when_missing() {
    let d = parse_yaml_doc("p.yaml", "title: Hi\n");
    assert_eq!(d.content, "");
}

#[test]
fn parse_yaml_defaults_content_when_non_string() {
    let d = parse_yaml_doc("p.yaml", "content: 42\n");
    assert_eq!(d.content, "");
}

#[test]
fn parse_yaml_output_path_swaps_to_html() {
    let d = parse_yaml_doc("page.yaml", "title: Hi\n");
    assert_eq!(d.output_path, "page.html");
}

#[test]
fn apply_defaults_fills_missing_and_recomputes_output_path() {
    let mut d = uplifted("posts/hello.md", "", yaml_mapping("date: 2025-03-07\n"), &tax());
    d.apply_defaults(&yaml_mapping("permalink: \":yyyy/:mm/:dd/:slug/\"\n"));
    d.uplift_frontmatter(&tax());
    assert_eq!(d.output_path, "2025/03/07/hello/index.html");
}

#[test]
fn apply_defaults_own_frontmatter_wins() {
    let mut d = uplifted("posts/hello.md", "", yaml_mapping("permalink: /custom/\n"), &tax());
    d.apply_defaults(&yaml_mapping("permalink: \":slug/\"\n"));
    d.uplift_frontmatter(&tax());
    assert_eq!(d.output_path, "custom/index.html");
}

#[test]
fn apply_defaults_picks_up_template_and_taxonomy_field() {
    let taxonomies = vec!["tags".to_string(), "categories".to_string()];
    let mut d = uplifted("posts/hello.md", "", Vec::new(), &taxonomies);
    d.apply_defaults(&yaml_mapping("template: post.html\ncategories: [Tech]\n"));
    d.uplift_frontmatter(&taxonomies);
    assert_eq!(d.template.as_deref(), Some("post.html"));
    assert_eq!(term(&d, "categories", "tech").map(|s| s.as_str()), Some("Tech"));
}

#[test]
fn first_term_display_text_wins() {
    let terms = uplift_terms(&yaml_mapping("tags: [Rust, rust, RUST]\n"), &tax());
    let b = get(&terms, "tags").unwrap();
    assert_eq!(b.len(), 1);
    assert_eq!(get(b, "rust").map(|s| s.as_str()), Some("Rust"));
}

#[test]
fn hashtags_keep_frontmatter_text() {
    let mut d = uplifted("p.md", "", yaml_mapping("tags: [Rust]\n"), &tax());
    d.add_hashtags(&vec!["rust".to_string(), "Go".to_string()]);
    assert_eq!(term(&d, "tags", "rust").map(|s| s.as_str()), Some("Rust"));
    assert_eq!(term(&d, "tags", "go").map(|s| s.as_str()), Some("Go"));
    let mut e = uplifted("q.md", "", Vec::new(), &Vec::new());
    e.add_hashtags(&vec!["new".to_string()]);
    assert_eq!(term(&e, "tags", "new").map(|s| s.as_str()), Some("new"));
}

#[test]
fn dates_come_from_chrono() {
    let d = Date::from_timestamp(86_400 + 3_600, 5).unwrap();
    assert_eq!((d.year, d.month, d.day, d.secs, d.nanos), (1970, 1, 2, 90_000, 5));
    let m = Date::from_ymd(2025, 3, 4).unwrap();
    assert_eq!((m.year, m.month, m.day, m.secs), (2025, 3, 4, 1_741_046_400));
    assert!(Date::from_ymd(2025, 2, 30).is_none());
    let p = italic::date::parse_date_str("2025-03-04T12:00:00+02:00").unwrap();
    assert_eq!((p.year, p.month, p.day, p.secs), (2025, 3, 4, 1_741_082_400));
    let q = italic::date::parse_date_str("2025-03-04").unwrap();
    assert_eq!(q, m);
    assert!(italic::date::parse_date_str("March 4").is_none());
}
