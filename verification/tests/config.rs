use italic::config::{normalize_base_path, normalize_site_url};

#[test]
fn normalize_site_url_strips_trailing_slash() {
    assert_eq!(
        normalize_site_url("https://example.com/"),
        Some("https://example.com".to_string())
    );
    assert_eq!(
        normalize_site_url("https://example.com"),
        Some("https://example.com".to_string())
    );
    assert_eq!(normalize_site_url(""), None);
    assert_eq!(normalize_site_url("/"), None);
}

#[test]
fn normalize_base_path_re_anchors() {
    assert_eq!(normalize_base_path(""), "");
    assert_eq!(normalize_base_path("/"), "");
    assert_eq!(normalize_base_path("blog"), "/blog");
    assert_eq!(normalize_base_path("/blog"), "/blog");
    assert_eq!(normalize_base_path("/blog/"), "/blog");
    assert_eq!(normalize_base_path("blog/sub"), "/blog/sub");
}

use italic::config::{Config, ConfigError, ALL};
use italic::query::{OrderKey, QueryError, SortDir};
use italic::yaml::{Mapping, Yaml};

fn conv(v: &serde_yaml_ng::Value) -> Yaml {
    match v {
        serde_yaml_ng::Value::Null => Yaml::Null,
        serde_yaml_ng::Value::Bool(b) => Yaml::Bool(*b),
        serde_yaml_ng::Value::Number(n) => {
            if let Some(i) = n.as_i64() {
                Yaml::Int(i as i128)
            } else if let Some(u) = n.as_u64() {
                Yaml::Int(u as i128)
            } else {
                Yaml::Float(n.to_string())
            }
        }
        serde_yaml_ng::Value::String(s) => Yaml::Str(s.clone()),
        serde_yaml_ng::Value::Sequence(l) => Yaml::List(l.iter().map(conv).collect()),
        serde_yaml_ng::Value::Mapping(m) => Yaml::Dict(m.iter().map(|(k, v)| (conv(k), conv(v))).collect()),
        serde_yaml_ng::Value::Tagged(t) => Yaml::Tagged(t.tag.to_string(), Box::new(conv(&t.value))),
    }
}

/// One `config.yaml` read as the loader reads it: absent or non-mapping text
/// gives the defaults and an empty site map.
fn load_one(text: Option<&str>) -> Result<(Config, Mapping), ConfigError> {
    let Some(text) = text else {
        return Ok((Config::default_config(), Vec::new()));
    };
    let v: serde_yaml_ng::Value = serde_yaml_ng::from_str(text).unwrap();
    match conv(&v) {
        Yaml::Dict(m) => Config::from_mapping(&m),
        _ => Ok((Config::default_config(), Vec::new())),
    }
}

/// The site config layered over the theme's (when it sets `theme:`), then
/// settled.
fn load_with_theme(text: Option<&str>, theme_text: Option<&str>) -> Result<(Config, Mapping), ConfigError> {
    let (mut config, mut site) = load_one(text)?;
    if config.theme.is_some() {
        let (theme, theme_site) = load_one(theme_text)?;
        config.apply_theme(&mut site, theme, theme_site);
    }
    config.finish(&site)?;
    Ok((config, site))
}

fn load(text: &str) -> Result<(Config, Mapping), ConfigError> {
    load_with_theme(Some(text), None)
}

fn site_str<'a>(site: &'a Mapping, key: &str) -> Option<&'a str> {
    italic::yaml::get(site, key).and_then(|v| italic::yaml::as_str(v))
}

fn user_collections(c: &Config) -> Vec<&str> {
    c.collections.iter().map(|(n, _)| n.as_str()).filter(|n| *n != ALL).collect()
}

#[test]
fn missing_file_yields_defaults() {
    let (config, site) = load_with_theme(None, None).unwrap();
    assert_eq!(config.content_dir, "content");
    assert_eq!(config.output_dir, "public");
    assert!(site.is_empty());
}

#[test]
fn empty_or_comment_only_file_yields_defaults() {
    let (config, site) = load("# just a comment\n").unwrap();
    assert_eq!(config.content_dir, "content");
    assert_eq!(config.output_dir, "public");
    assert!(config.theme.is_none());
    assert!(site.is_empty());
}

#[test]
fn partial_overrides_keep_defaults_for_missing_keys() {
    let (config, site) = load("output_dir: build\n").unwrap();
    assert_eq!(config.output_dir, "build");
    assert_eq!(config.content_dir, "content");
    assert!(site.is_empty());
}

#[test]
fn site_submap_is_extracted() {
    let (_, site) = load("site:\n  title: My Site\n  description: A blog\n").unwrap();
    assert_eq!(site_str(&site, "title"), Some("My Site"));
}

#[test]
fn site_absent_yields_empty_map() {
    let (_, site) = load("content_dir: foo\n").unwrap();
    assert!(site.is_empty());
}

#[test]
fn site_url_and_base_path_loaded_from_site_submap() {
    let (config, site) = load("site:\n  url: https://example.com/\n  base_path: blog\n").unwrap();
    assert_eq!(config.site_url.as_deref(), Some("https://example.com"));
    assert_eq!(config.base_path, "/blog");
    assert_eq!(site_str(&site, "url"), Some("https://example.com/"));
}

#[test]
fn site_url_and_base_path_default_when_absent() {
    let (config, _) = load("site:\n  title: My Site\n").unwrap();
    assert!(config.site_url.is_none());
    assert_eq!(config.base_path, "");
}

#[test]
fn defaults_block_is_parsed() {
    let (config, _) = load(
        "collections:\n  posts:\n    path: \"posts/*.md\"\ndefaults:\n  posts:\n    permalink: \":yyyy/:mm/:dd/:slug\"\n",
    )
    .unwrap();
    assert_eq!(config.defaults.len(), 1);
    let (name, fm) = &config.defaults[0];
    assert_eq!(name, "posts");
    assert_eq!(site_str(fm, "permalink"), Some(":yyyy/:mm/:dd/:slug"));
}

#[test]
fn defaults_referencing_unknown_collection_errors() {
    let r = load("defaults:\n  posts:\n    template: post.html\n");
    assert_eq!(r.err(), Some(ConfigError::UnknownDefaultsCollection("posts".to_string())));
}

#[test]
fn collections_block_is_parsed() {
    let (config, _) = load("collections:\n  posts:\n    path: \"posts/*.md\"\n  recent:\n    order_by: updated\n").unwrap();
    assert_eq!(user_collections(&config), vec!["posts", "recent"]);
    assert!(config.collections[0].1.path.is_some());
}

#[test]
fn collection_limit_key_errors() {
    let r = load("collections:\n  posts:\n    path: \"posts/*.md\"\n    limit: 5\n");
    let err = r.err().unwrap().message();
    assert!(err.contains("limit"), "error should mention limit: {err}");
}

#[test]
fn taxonomies_absent_yields_empty() {
    let (config, _) = load("content_dir: foo\n").unwrap();
    assert!(config.taxonomies.is_empty());
}

#[test]
fn taxonomies_block_parsed_in_declaration_order() {
    let (config, _) = load("taxonomies:\n  - tags\n  - categories\n  - series\n").unwrap();
    assert_eq!(config.taxonomies, vec!["tags", "categories", "series"]);
}

#[test]
fn missing_file_yields_empty_taxonomies() {
    let (config, _) = load_with_theme(None, None).unwrap();
    assert!(config.taxonomies.is_empty());
}

#[test]
fn collections_absent_yields_empty() {
    let (config, _) = load("content_dir: foo\n").unwrap();
    assert!(user_collections(&config).is_empty());
}

#[test]
fn default_all_collection_injected_when_absent() {
    let (config, _) = load("content_dir: foo\n").unwrap();
    let all = config.collections.iter().find(|(n, _)| n == ALL).map(|(_, q)| q).expect("an `all` collection should always exist");
    assert!(all.path.is_none());
    assert_eq!(all.order_by, OrderKey::Date);
    assert_eq!(all.sort, SortDir::Desc);
}

#[test]
fn user_all_collection_overrides_default() {
    let (config, _) = load("collections:\n  all:\n    order_by: title\n").unwrap();
    let alls: Vec<_> = config.collections.iter().filter(|(n, _)| n == ALL).map(|(_, q)| q).collect();
    assert_eq!(alls.len(), 1, "no duplicate `all` collection");
    assert_eq!(alls[0].order_by, OrderKey::Title);
}

#[test]
fn defaults_may_reference_all_without_declaring_collections() {
    let (config, _) = load("defaults:\n  all:\n    template: base.html\n").unwrap();
    assert_eq!(config.defaults.len(), 1);
    assert_eq!(config.defaults[0].0, "all");
}

#[test]
fn collections_unknown_query_key_errors() {
    let r = load("collections:\n  bad:\n    paht: x\n");
    assert_eq!(
        r.err(),
        Some(ConfigError::InCollection("bad".to_string(), QueryError::UnknownKey("paht".to_string())))
    );
}

#[test]
fn defaults_absent_yields_empty() {
    let (config, _) = load("content_dir: foo\n").unwrap();
    assert!(config.defaults.is_empty());
}

#[test]
fn no_config_file_yields_empty_url_fields() {
    let (config, _) = load_with_theme(None, None).unwrap();
    assert!(config.site_url.is_none());
    assert_eq!(config.base_path, "");
}

#[test]
fn theme_overlays_templates_archives_and_static_roots() {
    let (config, _) = load_with_theme(Some("theme: themes/demo\n"), Some("site:\n  title: Demo\n")).unwrap();
    assert_eq!(config.templates_dir, "templates");
    assert_eq!(config.archives_dir, "archives");
    assert_eq!(config.template_roots(), vec!["themes/demo/templates", "templates"]);
    assert_eq!(config.archive_roots(), vec!["themes/demo/archives", "archives"]);
    assert_eq!(config.static_roots(), vec!["themes/demo/static", "static"]);
    assert_eq!(config.content_dir, "content");
    assert_eq!(config.output_dir, "public");
    assert_eq!(config.data_dir, "data");
}

#[test]
fn theme_ignores_its_own_dir_names() {
    let (config, _) = load_with_theme(
        Some("theme: theme\n"),
        Some("templates_dir: layouts\narchives_dir: views\nstatic_dir: assets\n"),
    )
    .unwrap();
    assert_eq!(config.template_roots()[0], "theme/templates");
    assert_eq!(config.archive_roots()[0], "theme/archives");
    assert_eq!(config.static_roots()[0], "theme/static");
}

#[test]
fn theme_without_config_resolves_conventional_dirs() {
    let (config, _) = load_with_theme(Some("theme: theme\n"), None).unwrap();
    assert_eq!(config.template_roots()[0], "theme/templates");
    assert_eq!(config.archive_roots()[0], "theme/archives");
    assert_eq!(config.static_roots()[0], "theme/static");
}

#[test]
fn template_and_archive_roots_are_just_site_without_theme() {
    let config = Config::default_config();
    assert_eq!(config.template_roots(), vec!["templates"]);
    assert_eq!(config.archive_roots(), vec!["archives"]);
}

#[test]
fn static_roots_orders_theme_before_site() {
    let (config, _) = load_with_theme(Some("theme: theme\n"), Some("")).unwrap();
    assert_eq!(config.static_roots(), vec!["theme/static", "static"]);
}

#[test]
fn static_roots_is_just_site_without_theme() {
    let config = Config::default_config();
    assert_eq!(config.static_roots(), vec!["static"]);
}

#[test]
fn theme_collections_merge_with_site_winning_by_name() {
    let (config, _) = load_with_theme(
        Some("theme: theme\ncollections:\n  posts:\n    order_by: updated\n"),
        Some("collections:\n  posts:\n    order_by: title\n  news:\n    order_by: title\n"),
    )
    .unwrap();
    assert_eq!(user_collections(&config), vec!["posts", "news"]);
    assert_eq!(config.collections[0].1.order_by, OrderKey::Updated);
    assert_eq!(config.collections[1].1.order_by, OrderKey::Title);
}

#[test]
fn theme_taxonomies_merge_and_dedup() {
    let (config, _) = load_with_theme(
        Some("theme: theme\ntaxonomies:\n  - tags\n  - series\n"),
        Some("taxonomies:\n  - tags\n  - categories\n"),
    )
    .unwrap();
    assert_eq!(config.taxonomies, vec!["tags", "categories", "series"]);
}

#[test]
fn site_defaults_may_reference_theme_collection() {
    let (config, _) = load_with_theme(
        Some("theme: theme\ndefaults:\n  posts:\n    template: post.html\n"),
        Some("collections:\n  posts:\n    path: \"posts/*.md\"\n"),
    )
    .unwrap();
    assert_eq!(config.defaults.len(), 1);
    assert_eq!(config.defaults[0].0, "posts");
}

#[test]
fn theme_site_map_deep_merges_with_site_winning() {
    let (config, site) = load_with_theme(
        Some("theme: theme\nsite:\n  title: Site Title\n  url: https://site.example/\n"),
        Some("site:\n  title: Theme Title\n  author: Theme Author\n  url: https://theme.example\n"),
    )
    .unwrap();
    assert_eq!(site_str(&site, "title"), Some("Site Title"));
    assert_eq!(site_str(&site, "author"), Some("Theme Author"));
    assert_eq!(config.site_url.as_deref(), Some("https://site.example"));
}

#[test]
fn theme_hashtags_enable_propagates() {
    let (config, _) = load_with_theme(Some("theme: theme\n"), Some("hashtags: true\n")).unwrap();
    assert!(config.hashtags);
}

// --- further checks --------------------------------------------------------

#[test]
fn wrongly_typed_fields_are_rejected() {
    assert_eq!(load("content_dir: 3\n").err(), Some(ConfigError::FieldType("content_dir".to_string())));
    assert_eq!(load("hashtags: yes please\n").err(), Some(ConfigError::FieldType("hashtags".to_string())));
    assert_eq!(load("theme: [a]\n").err(), Some(ConfigError::FieldType("theme".to_string())));
    assert_eq!(load("collections:\n  posts: 3\n").err(), Some(ConfigError::CollectionNotMapping("posts".to_string())));
    assert_eq!(load("defaults:\n  posts: 3\n").err(), Some(ConfigError::DefaultsNotMapping("posts".to_string())));
    assert_eq!(load("taxonomies:\n  - 3\n").err(), Some(ConfigError::TaxonomyNotString));
}

#[test]
fn nested_site_maps_merge_key_by_key() {
    let (_, site) = load_with_theme(
        Some("theme: t\nsite:\n  social:\n    github: me\n"),
        Some("site:\n  social:\n    github: theme\n    mastodon: theme@x\n"),
    )
    .unwrap();
    let social = match italic::yaml::get(&site, "social") {
        Some(Yaml::Dict(m)) => m.clone(),
        _ => panic!("social should stay a mapping"),
    };
    assert_eq!(site_str(&social, "github"), Some("me"));
    assert_eq!(site_str(&social, "mastodon"), Some("theme@x"));
}

#[test]
fn config_error_messages_name_the_problem() {
    assert_eq!(
        ConfigError::CollectionLimit("posts".to_string()).message(),
        "in collection `posts`: `limit` is not a collection option (cap a listing or an archive instead)"
    );
    assert_eq!(
        ConfigError::UnknownDefaultsCollection("blog".to_string()).message(),
        "defaults: `blog` does not name a collection (declare it under `collections:`)"
    );
    assert_eq!(ConfigError::TaxonomyNotString.message(), "taxonomy names must be strings");
}

#[test]
fn finish_keeps_a_single_all_collection() {
    let (mut config, site) = load("collections:\n  all:\n    path: \"*.md\"\n").unwrap();
    config.finish(&site).unwrap();
    assert_eq!(config.collections.iter().filter(|(n, _)| n == ALL).count(), 1);
    let (mut config, site) = load("content_dir: foo\n").unwrap();
    config.finish(&site).unwrap();
    assert_eq!(config.collections.iter().filter(|(n, _)| n == ALL).count(), 1);
}

#[test]
fn tagged_collection_and_defaults_entries_are_read_through_their_tags() {
    let (config, _) = load("collections:\n  posts: !c\n    path: \"posts/*.md\"\ndefaults:\n  posts: !d\n    layout: post\n").unwrap();
    assert!(config.collections.iter().any(|(n, q)| n == "posts" && q.path.as_deref() == Some("posts/*.md")));
    assert_eq!(config.defaults.len(), 1);
    assert_eq!(config.defaults[0].0, "posts");
}

#[test]
fn non_mapping_document_configures_nothing() {
    let raw = italic::config::document_mapping(Yaml::Null);
    assert!(raw.is_empty());
    let (config, site) = Config::from_mapping(&raw).unwrap();
    assert_eq!(config.content_dir, "content");
    assert_eq!(config.output_dir, "public");
    assert!(site.is_empty());
}
