use italic::backlinks::Backlinks;
use italic::date::Date;
use italic::doc::{insert_term, Bucket, Doc};
use italic::doc_index::DocIndex;
use italic::permalink::default_for;
use italic::query::{OrderKey, Query, SortDir};
use italic::sorted::{get, upsert};

fn at(date: &str) -> Date {
    let parts: Vec<u32> = date.split('-').map(|p| p.parse().unwrap()).collect();
    Date::from_ymd(parts[0] as i32, parts[1], parts[2]).unwrap()
}

fn doc(id_path: &str, title: &str, date: &str) -> Doc {
    let mut d = Doc::default();
    d.id_path = id_path.to_string();
    d.output_path = default_for(id_path);
    d.title = title.to_string();
    d.date = at(date);
    d.updated = at(date);
    d
}

fn index(docs: Vec<Doc>) -> DocIndex {
    let mut index = DocIndex::new();
    for d in docs {
        index.insert(d);
    }
    index
}

fn add_terms(mut d: Doc, taxonomy: &str, texts: &[&str]) -> Doc {
    let mut bucket: Bucket = match get(&d.terms, taxonomy) {
        Some(b) => b.clone(),
        None => Vec::new(),
    };
    for t in texts {
        insert_term(&mut bucket, t);
    }
    upsert(&mut d.terms, taxonomy.to_string(), bucket);
    d
}

fn with_tags(d: Doc, tags: &[&str]) -> Doc {
    add_terms(d, "tags", tags)
}

fn titles(docs: &[&Doc]) -> Vec<String> {
    docs.iter().map(|d| d.title.clone()).collect()
}

#[test]
fn define_collection_filters_and_orders() {
    let mut index = index(vec![
        doc("posts/a.md", "A", "2025-01-01"),
        doc("posts/b.md", "B", "2025-03-01"),
        doc("pages/c.md", "C", "2025-02-01"),
    ]);
    let mut q = Query::default_query();
    q.path = Some("posts/*.md".to_string());
    index.define_collection("posts", &q);
    // Default order is date desc: B (Mar) before A (Jan); C is filtered out.
    assert_eq!(titles(&index.get_collection("posts")), vec!["B", "A"]);
}

#[test]
fn get_collection_unknown_name_is_empty() {
    let index = index(vec![doc("a.md", "A", "2025-01-01")]);
    assert_eq!(index.get_collection("nope").len(), 0);
}

#[test]
fn collection_order_is_stable_across_equal_sort_keys() {
    let mut index = index(vec![
        doc("a.md", "A", "2025-01-01"),
        doc("b.md", "B", "2025-01-01"),
        doc("c.md", "C", "2025-01-01"),
    ]);
    let mut q = Query::default_query();
    q.order_by = OrderKey::Date;
    index.define_collection("all", &q);
    let ids: Vec<String> = index.get_collection("all").iter().map(|d| d.id_path.clone()).collect();
    assert_eq!(ids, vec!["a.md", "b.md", "c.md"]);
}

#[test]
fn define_taxonomies_buckets_by_term_slug() {
    let a = with_tags(doc("a.md", "A", "2025-01-01"), &["rust"]);
    let b = with_tags(doc("b.md", "B", "2025-03-01"), &["rust", "go"]);
    let mut idx = index(vec![a, b]);
    idx.define_taxonomies(&vec!["tags".to_string()]);
    let tags = idx.get_taxonomy("tags").unwrap();
    // `rust` has both, date desc: b (Mar) before a (Jan).
    assert_eq!(get(tags, "rust").unwrap(), &vec!["b.md".to_string(), "a.md".to_string()]);
    assert_eq!(get(tags, "go").unwrap(), &vec!["b.md".to_string()]);
}

#[test]
fn define_taxonomies_handles_multiple_taxonomies() {
    let a = add_terms(doc("a.md", "A", "2025-01-01"), "categories", &["Tech"]);
    let mut idx = index(vec![a]);
    idx.define_taxonomies(&vec!["tags".to_string(), "categories".to_string()]);
    // tags taxonomy is defined but empty; categories has the doc.
    assert!(idx.get_taxonomy("tags").unwrap().is_empty());
    assert_eq!(get(idx.get_taxonomy("categories").unwrap(), "tech").unwrap(), &vec!["a.md".to_string()]);
}

#[test]
fn get_taxonomy_unknown_name_is_none() {
    let index = index(vec![doc("a.md", "A", "2025-01-01")]);
    assert!(index.get_taxonomy("tags").is_none());
}

#[test]
fn output_path_round_trips() {
    let index = index(vec![doc("posts/a.md", "A", "2025-01-01")]);
    assert_eq!(index.output_path("posts/a.md").map(|s| s.as_str()), Some("posts/a.html"));
    assert_eq!(index.output_path("missing.md"), None);
}

#[test]
fn to_doc_metas_covers_all_docs() {
    let index = index(vec![doc("a.md", "A", "2025-01-01"), doc("b.md", "B", "2025-01-02")]);
    assert_eq!(index.to_doc_metas().len(), 2);
}

// --- backlinks -------------------------------------------------------------

fn linking(id_path: &str, title: &str, date: &str, links: &[&str]) -> Doc {
    let mut d = doc(id_path, title, date);
    d.links = links.iter().map(|s| s.to_string()).collect();
    d
}

fn linked_index(docs: Vec<Doc>) -> DocIndex {
    let mut idx = index(docs);
    idx.define_backlinks();
    idx
}

#[test]
fn list_backlinks_no_backlinks_returns_empty() {
    let index = linked_index(vec![linking("a.md", "A", "2025-01-01", &[])]);
    let results = index.list_backlinks("b.md", &Backlinks::default_options());
    assert!(results.is_empty());
}

#[test]
fn list_backlinks_finds_single_backlink() {
    let index = linked_index(vec![
        linking("a.md", "A", "2025-01-01", &["b.md"]),
        linking("b.md", "B", "2025-01-02", &[]),
    ]);
    let results = index.list_backlinks("b.md", &Backlinks::default_options());
    assert_eq!(results.len(), 1);
    assert_eq!(results[0].title, "A");
}

#[test]
fn list_backlinks_finds_multiple_backlinks() {
    let index = linked_index(vec![
        linking("a.md", "A", "2025-01-01", &["b.md"]),
        linking("c.md", "C", "2025-01-03", &["b.md", "other.md"]),
        linking("d.md", "D", "2025-01-02", &["other.md"]),
    ]);
    let results = index.list_backlinks("b.md", &Backlinks::default_options());
    assert_eq!(results.len(), 2);
}

fn three_linkers() -> DocIndex {
    linked_index(vec![
        linking("a.md", "A", "2025-01-01", &["target.md"]),
        linking("b.md", "B", "2025-02-01", &["target.md"]),
        linking("c.md", "C", "2025-03-01", &["target.md"]),
    ])
}

#[test]
fn list_backlinks_default_order_is_date_desc() {
    let index = three_linkers();
    let results = index.list_backlinks("target.md", &Backlinks::default_options());
    assert_eq!(titles(&results), vec!["C", "B", "A"]);
}

#[test]
fn list_backlinks_order_by_title_asc() {
    let index = linked_index(vec![
        linking("a.md", "Charlie", "2025-01-01", &["target.md"]),
        linking("b.md", "Alpha", "2025-01-02", &["target.md"]),
        linking("c.md", "Bravo", "2025-01-03", &["target.md"]),
    ]);
    let mut opts = Backlinks::default_options();
    opts.order_by = OrderKey::Title;
    opts.sort = SortDir::Asc;
    let results = index.list_backlinks("target.md", &opts);
    assert_eq!(titles(&results), vec!["Alpha", "Bravo", "Charlie"]);
}

#[test]
fn list_backlinks_excludes_omitted_docs() {
    let index = three_linkers();
    let mut opts = Backlinks::default_options();
    opts.omit = vec!["b.md".to_string()];
    let results = index.list_backlinks("target.md", &opts);
    assert_eq!(titles(&results), vec!["C", "A"]);
}

#[test]
fn list_backlinks_omit_self_drops_self_link() {
    let index = linked_index(vec![
        linking("a.md", "A", "2025-01-01", &["target.md"]),
        linking("target.md", "Target", "2025-01-02", &["target.md"]),
    ]);
    let mut opts = Backlinks::default_options();
    opts.omit = vec!["target.md".to_string()];
    let results = index.list_backlinks("target.md", &opts);
    assert_eq!(titles(&results), vec!["A"]);
}

#[test]
fn list_backlinks_applies_limit() {
    let index = three_linkers();
    let mut opts = Backlinks::default_options();
    opts.limit = Some(2);
    // Default order is date desc, so the newest two survive the truncate.
    let results = index.list_backlinks("target.md", &opts);
    assert_eq!(titles(&results), vec!["C", "B"]);
}

#[test]
fn list_backlinks_omit_then_limit_compose() {
    let index = three_linkers();
    let mut opts = Backlinks::default_options();
    opts.omit = vec!["c.md".to_string()];
    opts.limit = Some(1);
    let results = index.list_backlinks("target.md", &opts);
    assert_eq!(titles(&results), vec!["B"]);
}

#[test]
fn list_backlinks_does_not_include_self_unless_self_links() {
    // A source linking to itself still appears in its own backlinks.
    let index = linked_index(vec![linking("a.md", "A", "2025-01-01", &["a.md"])]);
    let results = index.list_backlinks("a.md", &Backlinks::default_options());
    assert_eq!(results.len(), 1);
}

// --- further checks --------------------------------------------------------

#[test]
fn insert_replaces_doc_with_same_id_path() {
    let mut idx = index(vec![doc("a.md", "First", "2025-01-01")]);
    idx.insert(doc("a.md", "Second", "2025-01-02"));
    assert_eq!(idx.docs.len(), 1);
    assert_eq!(idx.doc("a.md").unwrap().title, "Second");
}

#[test]
fn store_is_sorted_by_id_path_with_slash_first() {
    let idx = index(vec![doc("a.md", "X", "2025-01-01"), doc("a/b.md", "Y", "2025-01-01"), doc("a-c.md", "Z", "2025-01-01")]);
    let ids: Vec<&str> = idx.docs.iter().map(|(k, _)| k.as_str()).collect();
    assert_eq!(ids, vec!["a/b.md", "a-c.md", "a.md"]);
}

#[test]
fn linkers_are_recorded_once_per_link() {
    let idx = linked_index(vec![
        linking("b.md", "B", "2025-01-01", &["t.md", "t.md"]),
        linking("a.md", "A", "2025-01-01", &["t.md"]),
    ]);
    assert_eq!(idx.linkers_of("t.md"), vec!["a.md".to_string(), "b.md".to_string(), "b.md".to_string()]);
    assert!(idx.linkers_of("missing.md").is_empty());
}

#[test]
fn collection_with_tag_filter_and_limit() {
    let mut idx = index(vec![
        with_tags(doc("a.md", "A", "2025-01-01"), &["Rust Lang"]),
        with_tags(doc("b.md", "B", "2025-02-01"), &["rust-lang"]),
        with_tags(doc("c.md", "C", "2025-03-01"), &["go"]),
    ]);
    let mut q = Query::default_query();
    q.tag = Some("Rust Lang".to_string());
    q.limit = Some(1);
    idx.define_collection("rust", &q);
    assert_eq!(titles(&idx.get_collection("rust")), vec!["B"]);
}

fn sorted_ids(mut v: Vec<String>) -> Vec<String> {
    v.sort();
    v
}

#[test]
fn related_candidates_share_a_namespace_and_skip_post_and_omit() {
    let mut p = with_tags(doc("p.md", "P", "2025-01-01"), &["rust"]);
    p.links = vec!["c.md".to_string()];
    let a = with_tags(doc("a.md", "A", "2025-01-02"), &["rust"]);
    let b = with_tags(doc("b.md", "B", "2025-01-03"), &["go"]);
    let c = doc("c.md", "C", "2025-01-04");
    let mut e = doc("e.md", "E", "2025-01-05");
    e.links = vec!["c.md".to_string()];
    let mut idx = index(vec![p, a, b, c, e]);
    idx.define_taxonomies(&vec!["tags".to_string()]);
    idx.define_backlinks();
    let ns = vec!["tags".to_string(), "links".to_string()];
    assert_eq!(sorted_ids(idx.related_candidates("p.md", &ns, &Vec::new())), vec!["a.md", "c.md", "e.md"]);
    assert_eq!(sorted_ids(idx.related_candidates("p.md", &ns, &vec!["e.md".to_string()])), vec!["a.md", "c.md"]);
    assert_eq!(sorted_ids(idx.related_candidates("p.md", &vec!["tags".to_string()], &Vec::new())), vec!["a.md"]);
    assert!(idx.related_candidates("missing.md", &ns, &Vec::new()).is_empty());
}
