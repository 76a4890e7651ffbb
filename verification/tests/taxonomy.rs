use italic::taxonomy::{parse, Taxonomy, TaxonomyError};
use italic::yaml::{Mapping, Yaml};

fn conv(v: &serde_yaml_ng::Value) -> Yaml {
    match v {
        serde_yaml_ng::Value::Null => Yaml::Null,
        serde_yaml_ng::Value::Bool(b) => Yaml::Bool(*b),
        serde_yaml_ng::Value::Number(n) => {
            if let Some(i) = n.as_i64() {
                Yaml::Int(i as i128)
            } else if let Some(u) = n.as_u64() {
                Yaml::Int(u as i128)
            } else {
                Yaml::Float(n.to_string())
            }
        }
        serde_yaml_ng::Value::String(s) => Yaml::Str(s.clone()),
        serde_yaml_ng::Value::Sequence(l) => Yaml::List(l.iter().map(conv).collect()),
        serde_yaml_ng::Value::Mapping(m) => Yaml::Dict(m.iter().map(|(k, v)| (conv(k), conv(v))).collect()),
        serde_yaml_ng::Value::Tagged(t) => Yaml::Tagged(t.tag.to_string(), Box::new(conv(&t.value))),
    }
}

fn yaml(s: &str) -> Mapping {
    let v: serde_yaml_ng::Value = serde_yaml_ng::from_str(s).unwrap();
    match conv(&v) {
        Yaml::Dict(m) => m,
        Yaml::Null => Vec::new(),
        _ => panic!("not a mapping"),
    }
}

fn names(t: &[Taxonomy]) -> Vec<&str> {
    t.iter().map(|t| t.name.as_str()).collect()
}

#[test]
fn none_yields_empty() {
    let t = parse(None).unwrap();
    assert!(t.is_empty());
}

#[test]
fn parses_in_declaration_order() {
    let m = yaml("tags:\ncategories:\nseries:\n");
    let t = parse(Some(&m)).unwrap();
    assert_eq!(names(&t), vec!["tags", "categories", "series"]);
}

#[test]
fn field_defaults_to_name() {
    let m = yaml("categories:\n");
    let t = parse(Some(&m)).unwrap();
    assert_eq!(t[0].name, "categories");
    assert_eq!(t[0].field, "categories");
}

#[test]
fn field_can_be_overridden() {
    let m = yaml("series:\n  field: serie\n");
    let t = parse(Some(&m)).unwrap();
    assert_eq!(t[0].name, "series");
    assert_eq!(t[0].field, "serie");
}

#[test]
fn false_removes_a_declared_taxonomy() {
    let m = yaml("tags: false\ncategories:\n");
    let t = parse(Some(&m)).unwrap();
    assert_eq!(names(&t), vec!["categories"]);
}

#[test]
fn tags_field_can_be_overridden() {
    let m = yaml("tags:\n  field: topics\n");
    let t = parse(Some(&m)).unwrap();
    assert_eq!(names(&t), vec!["tags"]);
    assert_eq!(t[0].field, "topics");
}

#[test]
fn non_string_field_errors() {
    let m = yaml("series:\n  field: 7\n");
    assert!(parse(Some(&m)).is_err());
}

#[test]
fn scalar_value_errors() {
    let m = yaml("categories: 7\n");
    assert!(parse(Some(&m)).is_err());
}

// --- further checks --------------------------------------------------------

#[test]
fn false_after_declaration_removes_it_and_redeclaring_keeps_first_position() {
    let s = |t: &str| Yaml::Str(t.to_string());
    let m: Mapping = vec![
        (s("tags"), Yaml::Null),
        (s("categories"), Yaml::Null),
        (s("tags"), Yaml::Bool(false)),
        (s("series"), Yaml::Null),
        (s("categories"), Yaml::Dict(vec![(s("field"), s("cats"))])),
    ];
    let t = parse(Some(&m)).unwrap();
    assert_eq!(names(&t), vec!["categories", "series"]);
    assert_eq!(t[0].field, "cats");
}

#[test]
fn true_is_like_null() {
    let t = parse(Some(&yaml("tags: true\n"))).unwrap();
    assert_eq!(t, vec![Taxonomy::new("tags".to_string())]);
}

#[test]
fn taxonomy_errors_name_their_cause() {
    assert_eq!(parse(Some(&yaml("series:\n  field: 7\n"))).err(), Some(TaxonomyError::NonStringField("series".to_string())));
    assert_eq!(parse(Some(&yaml("categories: 7\n"))).err(), Some(TaxonomyError::BadValue("categories".to_string())));
    assert_eq!(parse(Some(&vec![(Yaml::Int(1), Yaml::Null)])).err(), Some(TaxonomyError::NonStringKey));
}
