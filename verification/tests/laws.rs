use italic::config::{merge_named, normalize_base_path, normalize_site_url};
use italic::doc::Doc;
use italic::frontmatter::split;
use italic::html::{escape, strip_tags};
use italic::output::{write_plan, Output};
use italic::permalink::to_url;
use italic::yaml::{as_str, get, Yaml};

#[test]
fn normalizing_twice_changes_nothing() {
    for s in ["", "/", "blog", "/blog/", "//a//b//", "x/"] {
        let once = normalize_base_path(s);
        assert_eq!(normalize_base_path(&once), once);
        assert!(once.is_empty() || (once.starts_with('/') && !once.ends_with('/') && !once.starts_with("//")));
    }
    for s in ["https://a.example//", "https://a.example", "/"] {
        if let Some(u) = normalize_site_url(s) {
            assert!(!u.ends_with('/'));
            assert_eq!(normalize_site_url(&u), Some(u.clone()));
        }
    }
}

#[test]
fn escaped_text_has_no_markup_characters() {
    let e = escape("<a href=\"x\" title='y'>&</a>");
    assert!(!e.contains('<') && !e.contains('>') && !e.contains('"') && !e.contains('\''));
    assert!(!strip_tags("<p>a <b>b</b> c</p><br").contains('<'));
}

#[test]
fn filling_defaults_twice_is_filling_once_and_own_values_win() {
    let s = |t: &str| Yaml::Str(t.to_string());
    let mut d = Doc::default();
    d.data = vec![(s("title"), s("Own"))];
    let defaults = vec![(s("title"), s("Default")), (s("template"), s("post.html"))];
    d.apply_defaults(&defaults);
    let once = d.data.len();
    d.apply_defaults(&defaults);
    assert_eq!(d.data.len(), once);
    assert_eq!(once, 2);
    assert_eq!(get(&d.data, "title").and_then(as_str), Some("Own"));
    assert_eq!(get(&d.data, "template").and_then(as_str), Some("post.html"));
}

#[test]
fn named_lists_merge_with_the_site_winning_in_the_theme_slot() {
    let theme = vec![("posts".to_string(), 1), ("news".to_string(), 2)];
    let site = vec![("extra".to_string(), 3), ("posts".to_string(), 4)];
    assert_eq!(
        merge_named(theme, site),
        vec![("posts".to_string(), 4), ("news".to_string(), 2), ("extra".to_string(), 3)]
    );
}

#[test]
fn frontmatter_split_reassembles() {
    let src = "---\ntitle: A\n---\nbody\n";
    let (y, b) = split(src).unwrap();
    assert_eq!(format!("---\n{y}\n---\n{b}"), src);
    let (y, b) = split("---\n---\nrest").unwrap();
    assert_eq!((y.as_str(), b.as_str()), ("", "rest"));
    assert_eq!(split("---\ntitle: A\n---"), Some(("title: A".to_string(), String::new())));
    assert_eq!(split("no frontmatter"), None);
}

#[test]
fn a_stub_at_a_page_path_is_not_written() {
    let out = |p: &str, id: &str| Output { output_path: p.to_string(), content: String::new(), id_path: id.to_string() };
    let outputs = vec![out("a/index.html", "a.md"), out("b.html", "b.md"), out("a/index.html", "alias of b")];
    assert_eq!(write_plan(&outputs), vec![None, None, Some(0)]);
}

#[test]
fn urls_are_rooted_and_index_pages_are_pretty() {
    assert_eq!(to_url("index.html"), "/");
    assert_eq!(to_url("notes/index.html"), "/notes/");
    assert_eq!(to_url("notes/a.html"), "/notes/a.html");
}
