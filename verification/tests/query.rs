use italic::date::Date;
use italic::doc::{insert_term, Bucket, Doc};
use italic::listing::evaluate;
use italic::query::{OrderKey, Query, QueryError, SortDir};
use italic::sorted::upsert;
use italic::yaml::{Mapping, Yaml};

fn conv(v: &serde_yaml_ng::Value) -> Yaml {
    match v {
        serde_yaml_ng::Value::Null => Yaml::Null,
        serde_yaml_ng::Value::Bool(b) => Yaml::Bool(*b),
        serde_yaml_ng::Value::Number(n) => {
            if let Some(i) = n.as_i64() {
                Yaml::Int(i as i128)
            } else if let Some(u) = n.as_u64() {
                Yaml::Int(u as i128)
            } else {
                Yaml::Float(n.to_string())
            }
        }
        serde_yaml_ng::Value::String(s) => Yaml::Str(s.clone()),
        serde_yaml_ng::Value::Sequence(l) => Yaml::List(l.iter().map(conv).collect()),
        serde_yaml_ng::Value::Mapping(m) => Yaml::Dict(m.iter().map(|(k, v)| (conv(k), conv(v))).collect()),
        serde_yaml_ng::Value::Tagged(t) => Yaml::Tagged(t.tag.to_string(), Box::new(conv(&t.value))),
    }
}

fn yaml_mapping(s: &str) -> Mapping {
    let v: serde_yaml_ng::Value = serde_yaml_ng::from_str(s).unwrap();
    match conv(&v) {
        Yaml::Dict(m) => m,
        Yaml::Null => Vec::new(),
        _ => panic!("not a mapping"),
    }
}

fn at(date: &str) -> Date {
    let parts: Vec<u32> = date.split('-').map(|p| p.parse().unwrap()).collect();
    Date::from_ymd(parts[0] as i32, parts[1], parts[2]).unwrap()
}

fn doc(id_path: &str, title: &str, date: &str) -> (String, Doc) {
    let mut d = Doc::default();
    d.id_path = id_path.to_string();
    d.title = title.to_string();
    d.date = at(date);
    d.updated = at(date);
    (id_path.to_string(), d)
}

fn tagged(mut e: (String, Doc), tag: &str) -> (String, Doc) {
    let mut b: Bucket = Vec::new();
    insert_term(&mut b, tag);
    upsert(&mut e.1.terms, "tags".to_string(), b);
    e
}

fn titles(docs: &[&Doc]) -> Vec<String> {
    docs.iter().map(|d| d.title.clone()).collect()
}

#[test]
fn from_yaml_mapping_empty_is_default() {
    let q = Query::from_yaml_mapping(&Vec::new()).unwrap();
    assert!(q.path.is_none());
    assert!(q.tag.is_none());
    assert_eq!(q.order_by, OrderKey::Date);
    assert_eq!(q.sort, SortDir::Desc);
    assert!(q.limit.is_none());
}

#[test]
fn from_yaml_mapping_all_fields() {
    let m = yaml_mapping("path: \"posts/*.md\"\ntag: journal\norder_by: title\nsort: asc\nlimit: 4\n");
    let q = Query::from_yaml_mapping(&m).unwrap();
    assert!(q.path.is_some());
    assert_eq!(q.tag.as_deref(), Some("journal"));
    assert_eq!(q.order_by, OrderKey::Title);
    assert_eq!(q.sort, SortDir::Asc);
    assert_eq!(q.limit, Some(4));
}

#[test]
fn from_yaml_mapping_unknown_key_errors() {
    let m = yaml_mapping("paht: x\n");
    assert!(Query::from_yaml_mapping(&m).is_err());
}

#[test]
fn from_yaml_mapping_parses_omit() {
    let m = yaml_mapping("omit:\n  - posts/a.md\n  - posts/b.md\n");
    let q = Query::from_yaml_mapping(&m).unwrap();
    assert_eq!(q.omit, vec!["posts/a.md".to_string(), "posts/b.md".to_string()]);
}

#[test]
fn from_yaml_mapping_omit_not_sequence_errors() {
    let m = yaml_mapping("omit: posts/a.md\n");
    assert!(Query::from_yaml_mapping(&m).is_err());
}

#[test]
fn from_yaml_mapping_omit_non_string_entry_errors() {
    let m = yaml_mapping("omit:\n  - 42\n");
    assert!(Query::from_yaml_mapping(&m).is_err());
}

#[test]
fn evaluate_filters_by_path_glob() {
    let docs = vec![
        doc("posts/a.md", "A", "2025-01-01"),
        doc("posts/sub/b.md", "B", "2025-01-02"),
        doc("pages/c.md", "C", "2025-01-03"),
    ];
    let q = Query::from_yaml_mapping(&yaml_mapping("path: \"posts/*.md\"\n")).unwrap();
    let results = evaluate(&q, &docs);
    assert_eq!(results.len(), 1);
    assert_eq!(results[0].title, "A");
}

#[test]
fn evaluate_filters_by_tag() {
    let docs = vec![tagged(doc("a.md", "A", "2025-01-01"), "rust"), tagged(doc("b.md", "B", "2025-01-02"), "other")];
    let q = Query::from_yaml_mapping(&yaml_mapping("tag: rust\n")).unwrap();
    let results = evaluate(&q, &docs);
    assert_eq!(results.len(), 1);
    assert_eq!(results[0].title, "A");
}

#[test]
fn evaluate_default_order_is_date_desc() {
    let docs = vec![doc("a.md", "A", "2025-01-01"), doc("b.md", "B", "2025-02-01"), doc("c.md", "C", "2025-03-01")];
    let q = Query::default_query();
    assert_eq!(titles(&evaluate(&q, &docs)), vec!["C", "B", "A"]);
}

#[test]
fn evaluate_order_by_title_asc() {
    let docs = vec![
        doc("a.md", "Charlie", "2025-01-01"),
        doc("b.md", "Alpha", "2025-01-02"),
        doc("c.md", "Bravo", "2025-01-03"),
    ];
    let q = Query::from_yaml_mapping(&yaml_mapping("order_by: title\nsort: asc\n")).unwrap();
    assert_eq!(titles(&evaluate(&q, &docs)), vec!["Alpha", "Bravo", "Charlie"]);
}

#[test]
fn evaluate_excludes_omitted_docs() {
    let docs = vec![doc("a.md", "A", "2025-01-01"), doc("b.md", "B", "2025-02-01"), doc("c.md", "C", "2025-03-01")];
    let q = Query::from_yaml_mapping(&yaml_mapping("omit:\n  - b.md\n")).unwrap();
    assert_eq!(titles(&evaluate(&q, &docs)), vec!["C", "A"]);
}

#[test]
fn evaluate_omit_nonexistent_path_keeps_all() {
    let docs = vec![doc("a.md", "A", "2025-01-01"), doc("b.md", "B", "2025-02-01")];
    let q = Query::from_yaml_mapping(&yaml_mapping("omit:\n  - nope.md\n")).unwrap();
    assert_eq!(evaluate(&q, &docs).len(), 2);
}

#[test]
fn evaluate_applies_limit() {
    let docs = vec![doc("a.md", "A", "2025-01-01"), doc("b.md", "B", "2025-02-01"), doc("c.md", "C", "2025-03-01")];
    let q = Query::from_yaml_mapping(&yaml_mapping("limit: 2\n")).unwrap();
    assert_eq!(titles(&evaluate(&q, &docs)), vec!["C", "B"]);
}

// --- further checks --------------------------------------------------------

#[test]
fn query_errors_name_their_cause() {
    assert_eq!(
        Query::from_yaml_mapping(&yaml_mapping("paht: x\n")).err(),
        Some(QueryError::UnknownKey("paht".to_string()))
    );
    assert_eq!(Query::from_yaml_mapping(&yaml_mapping("omit: x\n")).err(), Some(QueryError::OmitNotSequence));
    assert_eq!(Query::from_yaml_mapping(&yaml_mapping("omit: [1]\n")).err(), Some(QueryError::OmitEntryNotString));
    assert_eq!(Query::from_yaml_mapping(&yaml_mapping("path: 3\n")).err(), Some(QueryError::PathNotString));
    assert_eq!(Query::from_yaml_mapping(&yaml_mapping("tag: 3\n")).err(), Some(QueryError::TagNotString));
    assert_eq!(
        Query::from_yaml_mapping(&yaml_mapping("order_by: size\n")).err(),
        Some(QueryError::BadOrderBy("size".to_string()))
    );
    assert_eq!(Query::from_yaml_mapping(&yaml_mapping("order_by: 1\n")).err(), Some(QueryError::OrderByNotString));
    assert_eq!(Query::from_yaml_mapping(&yaml_mapping("sort: up\n")).err(), Some(QueryError::BadSort("up".to_string())));
    assert_eq!(Query::from_yaml_mapping(&yaml_mapping("sort: 1\n")).err(), Some(QueryError::SortNotString));
    assert_eq!(Query::from_yaml_mapping(&yaml_mapping("limit: -1\n")).err(), Some(QueryError::LimitNotNonNegative));
    assert_eq!(Query::from_yaml_mapping(&yaml_mapping("limit: x\n")).err(), Some(QueryError::LimitNotInteger));
    assert_eq!(Query::from_yaml_mapping(&vec![(Yaml::Int(1), Yaml::Null)]).err(), Some(QueryError::NonStringKey));
    assert!(matches!(
        Query::from_yaml_mapping(&yaml_mapping("path: \"a/[\"\n")).err(),
        Some(QueryError::InvalidGlob(_))
    ));
}

#[test]
fn glob_matching_follows_globset() {
    let docs = vec![
        doc("posts/a.md", "A", "2025-01-01"),
        doc("posts/sub/b.md", "B", "2025-01-02"),
        doc("notes/c.md", "C", "2025-01-03"),
    ];
    let deep = Query::from_yaml_mapping(&yaml_mapping("path: \"posts/**/*.md\"\n")).unwrap();
    assert_eq!(titles(&evaluate(&deep, &docs)), vec!["B", "A"]);
    let any = Query::from_yaml_mapping(&yaml_mapping("path: \"*/*.md\"\n")).unwrap();
    assert_eq!(titles(&evaluate(&any, &docs)), vec!["C", "A"]);
    assert!(Query::from_yaml_mapping(&yaml_mapping("path: \"a/[\"\n")).is_err());
}

#[test]
fn evaluate_keeps_input_order_on_ties() {
    let docs = vec![doc("b.md", "B", "2025-01-01"), doc("a.md", "A", "2025-01-01")];
    assert_eq!(titles(&evaluate(&Query::default_query(), &docs)), vec!["B", "A"]);
}

#[test]
fn deeply_nested_alternates_are_rejected_not_panicking() {
    let mut pat = String::from("x");
    for _ in 0..300 {
        pat = format!("{{a,{}}}", pat);
    }
    let q = vec![(Yaml::Str("path".to_string()), Yaml::Str(pat))];
    assert!(matches!(Query::from_yaml_mapping(&q).err(), Some(QueryError::InvalidGlob(_))));
}

#[test]
fn float_limit_is_not_a_non_negative_integer() {
    assert_eq!(Query::from_yaml_mapping(&yaml_mapping("limit: 2.5\n")).err(), Some(QueryError::LimitNotNonNegative));
}

#[test]
fn tagged_omit_list_is_read_through_its_tag() {
    let q = Query::from_yaml_mapping(&yaml_mapping("omit: !ids [a.md, b.md]\n")).unwrap();
    assert_eq!(q.omit, vec!["a.md".to_string(), "b.md".to_string()]);
}
