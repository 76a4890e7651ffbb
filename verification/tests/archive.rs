use italic::archive::{add_builtins, builtin_settings, feed_archive, plan_pages, sitemap_archive, Archive, ArchiveError, ArchiveKind, DEFAULT_FEED_LIMIT};
use italic::query::{OrderKey, SortDir};
use italic::yaml::{Mapping, Yaml};

fn conv(v: &serde_yaml_ng::Value) -> Yaml {
    match v {
        serde_yaml_ng::Value::Null => Yaml::Null,
        serde_yaml_ng::Value::Bool(b) => Yaml::Bool(*b),
        serde_yaml_ng::Value::Number(n) => {
            if let Some(i) = n.as_i64() {
                Yaml::Int(i as i128)
            } else if let Some(u) = n.as_u64() {
                Yaml::Int(u as i128)
            } else {
                Yaml::Float(n.to_string())
            }
        }
        serde_yaml_ng::Value::String(s) => Yaml::Str(s.clone()),
        serde_yaml_ng::Value::Sequence(l) => Yaml::List(l.iter().map(conv).collect()),
        serde_yaml_ng::Value::Mapping(m) => Yaml::Dict(m.iter().map(|(k, v)| (conv(k), conv(v))).collect()),
        serde_yaml_ng::Value::Tagged(t) => Yaml::Tagged(t.tag.to_string(), Box::new(conv(&t.value))),
    }
}

fn yaml_mapping(s: &str) -> Mapping {
    let v: serde_yaml_ng::Value = serde_yaml_ng::from_str(s).unwrap();
    match conv(&v) {
        Yaml::Dict(m) => m,
        Yaml::Null => Vec::new(),
        _ => panic!("not a mapping"),
    }
}

fn split_source(source: &str) -> (Mapping, String) {
    match italic::frontmatter::split(source) {
        Some((y, b)) => (yaml_mapping(&y), b),
        None => (Vec::new(), source.to_string()),
    }
}

fn str_at<'a>(m: &'a Mapping, key: &str) -> Option<&'a str> {
    italic::yaml::get(m, key).and_then(|v| italic::yaml::as_str(v))
}

fn parse(id: &str, source: &str) -> Result<Archive, ArchiveError> {
    let (data, body) = split_source(source);
    Archive::parse(id.to_string(), data, body)
}

#[test]
fn parse_collection_archive() {
    let source = "---\nkind: collection\ncollection: posts\npermalink: /blog/\nper_page: 2\nlimit: 6\ntemplate: blog.html\n---\nBODY";
    let a = parse("blog.html", source).unwrap();
    assert_eq!(a.permalink, "/blog/");
    assert_eq!(a.per_page, Some(2));
    assert_eq!(a.limit, Some(6));
    assert_eq!(a.template.as_deref(), Some("blog.html"));
    assert_eq!(a.body, "BODY");
    match a.kind {
        ArchiveKind::Collection { collection } => assert_eq!(collection, "posts"),
        _ => panic!("expected collection kind"),
    }
}

#[test]
fn parse_taxonomy_archive() {
    let source = "---\nkind: taxonomy\ntaxonomy: tags\npermalink: /tags/:term/\n---\nBODY";
    let a = parse("tags.html", source).unwrap();
    assert_eq!(a.permalink, "/tags/:term/");
    assert_eq!(a.per_page, None);
    assert_eq!(a.limit, None);
    match a.kind {
        ArchiveKind::Taxonomy { taxonomy } => assert_eq!(taxonomy, "tags"),
        _ => panic!("expected taxonomy kind"),
    }
}

#[test]
fn parse_missing_kind_errors() {
    let source = "---\npermalink: /blog/\n---\nBODY";
    assert!(parse("x.html", source).is_err());
}

#[test]
fn archive_parse_missing_permalink_errors() {
    let source = "---\nkind: collection\ncollection: posts\n---\nBODY";
    assert!(parse("x.html", source).is_err());
}

#[test]
fn parse_unknown_kind_errors() {
    let source = "---\nkind: all\npermalink: /sitemap.xml\n---\nBODY";
    assert!(parse("x.html", source).is_err());
}

#[test]
fn parse_collection_kind_requires_collection_name() {
    let source = "---\nkind: collection\npermalink: /blog/\n---\nBODY";
    assert!(parse("x.html", source).is_err());
}

#[test]
fn parse_taxonomy_kind_requires_taxonomy_name() {
    let source = "---\nkind: taxonomy\npermalink: /tags/:term/\n---\nBODY";
    assert!(parse("x.html", source).is_err());
}

#[test]
fn parse_taxonomy_archive_with_query() {
    let source = "---\nkind: taxonomy\ntaxonomy: tags\npermalink: /posts/tags/:term/\nquery:\n  path: \"posts/**\"\n  order_by: title\n  sort: asc\n---\nBODY";
    let a = parse("tags.html", source).unwrap();
    let q = a.query.expect("query should be parsed");
    assert!(q.path.is_some());
    assert_eq!(q.order_by, OrderKey::Title);
    assert_eq!(q.sort, SortDir::Asc);
}

#[test]
fn parse_collection_archive_with_query_errors() {
    let source = "---\nkind: collection\ncollection: posts\npermalink: /blog/\nquery:\n  path: \"posts/**\"\n---\nBODY";
    assert!(parse("blog.html", source).is_err());
}

#[test]
fn parse_taxonomy_archive_with_bad_query_key_errors() {
    let source = "---\nkind: taxonomy\ntaxonomy: tags\npermalink: /tags/:term/\nquery:\n  paht: x\n---\nBODY";
    assert!(parse("tags.html", source).is_err());
}

#[test]
fn parse_reports_each_error_kind() {
    assert_eq!(parse("x", "---\nkind: collection\n---\n").err(), Some(ArchiveError::MissingPermalink));
    assert_eq!(parse("x", "---\npermalink: /x/\n---\n").err(), Some(ArchiveError::MissingKind));
    assert_eq!(parse("x", "---\npermalink: /x/\nkind: all\n---\n").err(), Some(ArchiveError::UnknownKind("all".to_string())));
    assert_eq!(parse("x", "---\npermalink: /x/\nkind: taxonomy\n---\n").err(), Some(ArchiveError::MissingName("taxonomy".to_string())));
    assert_eq!(parse("x", "---\npermalink: /x/\nkind: taxonomy\ntaxonomy: tags\nquery: 3\n---\n").err(), Some(ArchiveError::QueryNotMapping));
    assert!(matches!(parse("x", "---\npermalink: /x/\nkind: taxonomy\ntaxonomy: tags\nquery:\n  bad: 1\n---\n").err(), Some(ArchiveError::InQuery(_))));
    assert_eq!(parse("x", "---\npermalink: /x/\nkind: collection\ncollection: c\nquery:\n  tag: a\n---\n").err(), Some(ArchiveError::QueryOnCollection));
}

fn collection_archive(permalink: &str, per_page: Option<usize>, limit: Option<usize>) -> Archive {
    Archive {
        id_path: "blog.html".to_string(),
        kind: ArchiveKind::Collection { collection: "posts".to_string() },
        per_page,
        limit,
        permalink: permalink.to_string(),
        template: None,
        body: String::new(),
        data: Vec::new(),
        query: None,
    }
}

#[test]
fn plan_pages_splits_items_and_links_neighbours() {
    let a = collection_archive("/blog/", Some(2), None);
    let pages = plan_pages(&a, 5, None);
    assert_eq!(pages.len(), 3);
    let ranges: Vec<(usize, usize)> = pages.iter().map(|p| (p.start, p.end)).collect();
    assert_eq!(ranges, vec![(0, 2), (2, 4), (4, 5)]);
    assert_eq!(pages[0].output_path, "blog/index.html");
    assert_eq!(pages[1].output_path, "blog/page/2/index.html");
    assert_eq!(pages[0].prev_url, None);
    assert_eq!(pages[0].next_url.as_deref(), Some("/blog/page/2/"));
    assert_eq!(pages[1].prev_url.as_deref(), Some("/blog/"));
    assert_eq!(pages[2].next_url, None);
    assert!(pages.iter().all(|p| p.total == 3));
}

#[test]
fn plan_pages_limit_caps_before_splitting() {
    let a = collection_archive("/blog/", Some(5), Some(100));
    assert_eq!(plan_pages(&a, 1000, None).len(), 20);
    let b = collection_archive("/blog/", Some(0), Some(0));
    let pages = plan_pages(&b, 7, None);
    assert_eq!(pages.len(), 1);
    assert_eq!((pages[0].start, pages[0].end), (0, 7));
}

#[test]
fn plan_pages_empty_run_has_one_page() {
    let a = collection_archive("/blog/", Some(3), None);
    let pages = plan_pages(&a, 0, None);
    assert_eq!(pages.len(), 1);
    assert_eq!((pages[0].start, pages[0].end), (0, 0));
    assert_eq!(pages[0].output_path, "blog/index.html");
}

#[test]
fn plan_pages_substitutes_term() {
    let mut a = collection_archive("/tags/:term/", None, None);
    a.kind = ArchiveKind::Taxonomy { taxonomy: "tags".to_string() };
    let pages = plan_pages(&a, 1, Some("rust"));
    assert_eq!(pages[0].output_path, "tags/rust/index.html");
}

#[test]
fn builtin_archives_have_expected_shape() {
    let s = sitemap_archive("all");
    assert_eq!(s.id_path, "sitemap.xml");
    assert_eq!(s.permalink, "/sitemap.xml");
    assert_eq!(s.limit, None);
    let f = feed_archive("posts");
    assert_eq!(f.id_path, "feed/posts.xml");
    assert_eq!(f.permalink, "/feed/posts.xml");
    assert_eq!(f.limit, Some(DEFAULT_FEED_LIMIT));
    assert_eq!(plan_pages(&s, 3, None)[0].output_path, "sitemap.xml");
}

#[test]
fn disk_archive_overrides_builtin() {
    let mut archives = vec![collection_archive("/custom-sitemap.xml", None, None)];
    archives[0].id_path = "sitemap.xml".to_string();
    add_builtins(&mut archives, Some("all"), &vec!["all".to_string()]);
    let ids: Vec<&str> = archives.iter().map(|a| a.id_path.as_str()).collect();
    assert_eq!(ids, vec!["sitemap.xml", "feed/all.xml"]);
    assert_eq!(archives[0].permalink, "/custom-sitemap.xml");
}

#[test]
fn disabled_sitemap_and_empty_feed_add_nothing() {
    let mut archives: Vec<Archive> = Vec::new();
    add_builtins(&mut archives, None, &Vec::new());
    assert!(archives.is_empty());
}

#[test]
fn builtin_settings_read_sitemap_and_feeds() {
    let s = |t: &str| Yaml::Str(t.to_string());
    let raw = vec![
        (s("sitemap"), s("all")),
        (s("feed"), Yaml::List(vec![s("posts"), s("notes")])),
    ];
    assert_eq!(builtin_settings(&raw), (Some("all".to_string()), vec!["posts".to_string(), "notes".to_string()]));
    let off = vec![(s("sitemap"), Yaml::Bool(false)), (s("feed"), Yaml::List(vec![s("posts"), Yaml::Int(1)]))];
    assert_eq!(builtin_settings(&off), (None, Vec::new()));
    assert_eq!(builtin_settings(&Vec::new()), (None, Vec::new()));
}

#[test]
fn tagged_values_read_through_their_tag() {
    let source = "---\nkind: collection\ncollection: posts\npermalink: !t /x/\nper_page: !n 2\n---\n";
    let a = parse("x.html", source).unwrap();
    assert_eq!(a.permalink, "/x/");
    assert_eq!(a.per_page, Some(2));
}

#[test]
fn tagged_query_mapping_is_read_through_its_tag() {
    let source = "---\nkind: taxonomy\ntaxonomy: tags\npermalink: /t/\nquery: !q\n  path: \"posts/*\"\n---\n";
    let a = parse("t.html", source).unwrap();
    assert_eq!(a.query.unwrap().path.as_deref(), Some("posts/*"));
}
