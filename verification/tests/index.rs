use italic::doc::Doc;
use italic::index::Index;

fn doc(id_path: &str, title: &str) -> Doc {
    let mut d = Doc::default();
    d.id_path = id_path.to_string();
    d.title = title.to_string();
    d
}

#[test]
fn get_finds_what_insert_stored() {
    let mut index = Index::new();
    index.insert(doc("a.md", "A"));
    index.insert(doc("b/c.md", "C"));
    assert_eq!(index.get("a.md").unwrap().title, "A");
    assert_eq!(index.get("b/c.md").unwrap().title, "C");
    assert!(index.get("missing.md").is_none());
}

#[test]
fn a_later_insert_under_the_same_path_wins_lookups() {
    let mut index = Index::default();
    index.insert(doc("a.md", "First"));
    index.insert(doc("a.md", "Second"));
    assert_eq!(index.docs.len(), 2);
    assert_eq!(index.get("a.md").unwrap().title, "Second");
}
