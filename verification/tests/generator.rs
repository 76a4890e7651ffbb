use italic::generator::{Generator, GeneratorError};
use italic::yaml::{Mapping, Yaml};

fn conv(v: &serde_yaml_ng::Value) -> Yaml {
    match v {
        serde_yaml_ng::Value::Null => Yaml::Null,
        serde_yaml_ng::Value::Bool(b) => Yaml::Bool(*b),
        serde_yaml_ng::Value::Number(n) => {
            if let Some(i) = n.as_i64() {
                Yaml::Int(i as i128)
            } else if let Some(u) = n.as_u64() {
                Yaml::Int(u as i128)
            } else {
                Yaml::Float(n.to_string())
            }
        }
        serde_yaml_ng::Value::String(s) => Yaml::Str(s.clone()),
        serde_yaml_ng::Value::Sequence(l) => Yaml::List(l.iter().map(conv).collect()),
        serde_yaml_ng::Value::Mapping(m) => Yaml::Dict(m.iter().map(|(k, v)| (conv(k), conv(v))).collect()),
        serde_yaml_ng::Value::Tagged(t) => Yaml::Tagged(t.tag.to_string(), Box::new(conv(&t.value))),
    }
}

fn yaml_mapping(s: &str) -> Mapping {
    let v: serde_yaml_ng::Value = serde_yaml_ng::from_str(s).unwrap();
    match conv(&v) {
        Yaml::Dict(m) => m,
        Yaml::Null => Vec::new(),
        _ => panic!("not a mapping"),
    }
}

fn split_source(source: &str) -> (Mapping, String) {
    match italic::frontmatter::split(source) {
        Some((y, b)) => (yaml_mapping(&y), b),
        None => (Vec::new(), source.to_string()),
    }
}

fn str_at<'a>(m: &'a Mapping, key: &str) -> Option<&'a str> {
    italic::yaml::get(m, key).and_then(|v| italic::yaml::as_str(v))
}

fn parse(id: &str, source: &str) -> Result<Generator, GeneratorError> {
    let (data, body) = split_source(source);
    Generator::parse(id.to_string(), data, body)
}

#[test]
fn parse_full_generator() {
    let source = "---\npermalink: /blog/page-:page/\nper_page: 2\nweight: 5\ntemplate: blog.html\nquery:\n  path: \"posts/*.md\"\n  order_by: date\n  sort: desc\n---\nBODY";
    let g = parse("blog.html", source).unwrap();
    assert_eq!(g.permalink, "/blog/page-:page/");
    assert_eq!(g.per_page, Some(2));
    assert_eq!(g.weight, 5);
    assert_eq!(g.template.as_deref(), Some("blog.html"));
    assert_eq!(g.body, "BODY");
    assert!(g.query.path.is_some());
}

#[test]
fn parse_defaults() {
    let g = parse("sitemap.xml", "---\npermalink: /sitemap.xml\n---\nBODY").unwrap();
    assert_eq!(g.permalink, "/sitemap.xml");
    assert_eq!(g.per_page, None);
    assert_eq!(g.weight, 0);
    assert!(g.template.is_none());
    assert!(g.query.path.is_none());
    assert!(g.query.tag.is_none());
    let _ = str_at(&g.data, "permalink");
}

#[test]
fn generator_parse_missing_permalink_errors() {
    assert_eq!(parse("x.html", "---\nweight: 1\n---\nBODY").err(), Some(GeneratorError::MissingPermalink));
    assert_eq!(parse("x.html", "---\npermalink: /x/\nquery: 5\n---\n").err(), Some(GeneratorError::QueryNotMapping));
}

#[test]
fn weight_narrows_to_i32() {
    let g = parse("x.html", "---\npermalink: /x/\nweight: 4294967297\n---\n").unwrap();
    assert_eq!(g.weight, 1);
}
