//! Site configuration: the typed fields of `config.yaml`, theme layering, and
//! the normalisation of the URL fields taken from the `site:` map.

use vstd::prelude::*;
use crate::paths::{push_rel, push_rel_exec};
use crate::query::{parse_query, same_kind, Query, QueryError, QueryView};
use crate::text::{
    chars_of, push_range, str_eq, string_of_range, trim_end_char, trim_end_char_idx,
    trim_start_char, trim_start_char_idx,
};
use crate::yaml::{as_mapping, as_str, dict_of, get, map_eq, map_get, mapping_clone, str_field, str_of, Mapping, Yaml};

verus! {

/// Name of the always-present collection of every doc.
pub const ALL: &'static str = "all";

/// The typed configuration. Directory fields are paths relative to the
/// working directory. `site_url` and `base_path` are derived from the `site:`
/// map; `defaults`, `collections` and `taxonomies` from their blocks.
pub struct Config {
    pub content_dir: String,
    pub output_dir: String,
    pub templates_dir: String,
    pub static_dir: String,
    pub data_dir: String,
    pub archives_dir: String,
    pub theme: Option<String>,
    pub hashtags: bool,
    pub site_url: Option<String>,
    pub base_path: String,
    pub defaults: Vec<(String, Mapping)>,
    pub collections: Vec<(String, Query)>,
    pub taxonomies: Vec<String>,
}

/// Why a configuration was rejected.
#[derive(Debug, Clone, PartialEq, Eq)]
pub enum ConfigError {
    /// A top-level key holds a value of the wrong type (the key is given).
    FieldType(String),
    CollectionNameNotString,
    CollectionNotMapping(String),
    /// A collection sets `limit`, which only listings and archives take.
    CollectionLimit(String),
    InCollection(String, QueryError),
    DefaultsKeyNotString,
    DefaultsNotMapping(String),
    TaxonomyNotString,
    UnknownDefaultsCollection(String),
}

/// `before`, then `name` in backticks, then `after`.
pub open spec fn quoted(before: Seq<char>, name: Seq<char>, after: Seq<char>) -> Seq<char> {
    before + "`"@ + name + "`"@ + after
}

/// What a configuration error says to the user.
pub open spec fn config_error_text(e: ConfigError) -> Seq<char> {
    match e {
        ConfigError::FieldType(k) => quoted(""@, k@, " has a value of the wrong type"@),
        ConfigError::CollectionNameNotString => "collection names must be strings"@,
        ConfigError::CollectionNotMapping(n) => quoted("collection "@, n@, " must be a mapping of query options"@),
        ConfigError::CollectionLimit(n) => quoted(
            "in collection "@,
            n@,
            ": `limit` is not a collection option (cap a listing or an archive instead)"@,
        ),
        ConfigError::InCollection(n, _) => quoted("in collection "@, n@, ": invalid query"@),
        ConfigError::DefaultsKeyNotString => "defaults keys must be collection names (strings)"@,
        ConfigError::DefaultsNotMapping(n) => quoted("defaults for "@, n@, " must be a mapping of frontmatter values"@),
        ConfigError::TaxonomyNotString => "taxonomy names must be strings"@,
        ConfigError::UnknownDefaultsCollection(n) => quoted(
            "defaults: "@,
            n@,
            " does not name a collection (declare it under `collections:`)"@,
        ),
    }
}

/// `before`, `name` in backticks, `after`, as a `String`.
fn quoted_exec(before: &str, name: &str, after: &str) -> (r: String)
    ensures
        r@ == quoted(before@, name@, after@),
{
    let mut out = String::from_str(before);
    out.append("`");
    out.append(name);
    out.append("`");
    out.append(after);
    out
}

impl ConfigError {
    /// The message shown for this error.
    pub fn message(&self) -> (r: String)
        ensures
            r@ == config_error_text(*self),
    {
        match self {
            ConfigError::FieldType(k) => quoted_exec("", k.as_str(), " has a value of the wrong type"),
            ConfigError::CollectionNameNotString => String::from_str("collection names must be strings"),
            ConfigError::CollectionNotMapping(n) => quoted_exec(
                "collection ",
                n.as_str(),
                " must be a mapping of query options",
            ),
            ConfigError::CollectionLimit(n) => quoted_exec(
                "in collection ",
                n.as_str(),
                ": `limit` is not a collection option (cap a listing or an archive instead)",
            ),
            ConfigError::InCollection(n, _) => quoted_exec("in collection ", n.as_str(), ": invalid query"),
            ConfigError::DefaultsKeyNotString => String::from_str("defaults keys must be collection names (strings)"),
            ConfigError::DefaultsNotMapping(n) => quoted_exec(
                "defaults for ",
                n.as_str(),
                " must be a mapping of frontmatter values",
            ),
            ConfigError::TaxonomyNotString => String::from_str("taxonomy names must be strings"),
            ConfigError::UnknownDefaultsCollection(n) => quoted_exec(
                "defaults: ",
                n.as_str(),
                " does not name a collection (declare it under `collections:`)",
            ),
        }
    }
}


impl Config {
    /// The zero-config defaults: `content`, `public`, `templates`, `static`,
    /// `data`, `archives`; no theme, hashtags off, no URL fields, no blocks.
    pub fn default_config() -> (r: Config)
        ensures
            r.content_dir@ == "content"@,
            r.output_dir@ == "public"@,
            r.templates_dir@ == "templates"@,
            r.static_dir@ == "static"@,
            r.data_dir@ == "data"@,
            r.archives_dir@ == "archives"@,
            r.theme is None,
            !r.hashtags,
            r.site_url is None,
            r.base_path@.len() == 0,
            r.defaults@.len() == 0,
            r.collections@.len() == 0,
            r.taxonomies@.len() == 0,
    {
        Config {
            content_dir: String::from_str("content"),
            output_dir: String::from_str("public"),
            templates_dir: String::from_str("templates"),
            static_dir: String::from_str("static"),
            data_dir: String::from_str("data"),
            archives_dir: String::from_str("archives"),
            theme: None,
            hashtags: false,
            site_url: None,
            base_path: String::new(),
            defaults: Vec::new(),
            collections: Vec::new(),
            taxonomies: Vec::new(),
        }
    }

    /// Ordered `static/` roots: the theme's `static` subdir, then the site's.
    pub fn static_roots(&self) -> (r: Vec<String>)
        ensures
            r@.map_values(|s: String| s@) == roots_spec(
                opt_view(self.theme),
                "static"@,
                self.static_dir@,
            ),
    {
        overlay_roots(&self.theme, "static", &self.static_dir)
    }

    /// Ordered `templates/` roots: the theme's `templates` subdir, then the site's.
    pub fn template_roots(&self) -> (r: Vec<String>)
        ensures
            r@.map_values(|s: String| s@) == roots_spec(
                opt_view(self.theme),
                "templates"@,
                self.templates_dir@,
            ),
    {
        overlay_roots(&self.theme, "templates", &self.templates_dir)
    }

    /// Ordered `archives/` roots: the theme's `archives` subdir, then the site's.
    pub fn archive_roots(&self) -> (r: Vec<String>)
        ensures
            r@.map_values(|s: String| s@) == roots_spec(
                opt_view(self.theme),
                "archives"@,
                self.archives_dir@,
            ),
    {
        overlay_roots(&self.theme, "archives", &self.archives_dir)
    }
}

/// View of an optional string.
pub open spec fn opt_view(o: Option<String>) -> Option<Seq<char>> {
    match o {
        Some(s) => Some(s@),
        None => None,
    }
}

/// The overlay roots of an asset class: the theme's conventional subdir (when
/// a theme is set), then the site's own dir.
pub open spec fn roots_spec(theme: Option<Seq<char>>, sub: Seq<char>, site_dir: Seq<char>) -> Seq<
    Seq<char>,
> {
    match theme {
        Some(t) => seq![push_rel(t, sub), site_dir],
        None => seq![site_dir],
    }
}

/// Ordered overlay roots for an asset class (theme subdir, then site dir).
pub fn overlay_roots(theme: &Option<String>, sub: &str, site_dir: &String) -> (r: Vec<String>)
    ensures
        r@.map_values(|s: String| s@) == roots_spec(opt_view(*theme), sub@, site_dir@),
{
    let mut roots: Vec<String> = Vec::new();
    match theme {
        Some(t) => {
            let mut p = t.clone();
            push_rel_exec(&mut p, sub);
            roots.push(p);
        },
        None => {},
    }
    roots.push(site_dir.clone());
    proof {
        assert(roots@.map_values(|s: String| s@) =~= roots_spec(opt_view(*theme), sub@, site_dir@));
    }
    roots
}

// ---------------------------------------------------------------------------
// URL fields
// ---------------------------------------------------------------------------

/// `site.url` with trailing `/`s removed; `None` when nothing is left.
pub open spec fn normalize_site_url_spec(s: Seq<char>) -> Option<Seq<char>> {
    if trim_end_char(s, '/').len() == 0 {
        None
    } else {
        Some(trim_end_char(s, '/'))
    }
}

/// `site.base_path` with surrounding `/`s removed and one leading `/` put
/// back; empty for the root.
pub open spec fn normalize_base_path_spec(s: Seq<char>) -> Seq<char> {
    let t = trim_end_char(trim_start_char(s, '/'), '/');
    if t.len() == 0 {
        Seq::empty()
    } else {
        seq!['/'] + t
    }
}

/// Normalise `site.url`: strip trailing slashes; empty means unset.
pub fn normalize_site_url(s: &str) -> (r: Option<String>)
    ensures
        opt_view(r) == normalize_site_url_spec(s@),
{
    let cs = chars_of(s);
    let k = trim_end_char_idx(&cs, '/', cs.len());
    proof { assert(cs@.take(cs.len() as int) == cs@); }
    if k == 0 {
        None
    } else {
        let r = string_of_range(&cs, 0, k);
        proof { assert(cs@.subrange(0, k as int) == cs@.take(k as int)); }
        Some(r)
    }
}

/// Normalise `site.base_path` to start with `/` and not end with `/`;
/// empty for the root.
pub fn normalize_base_path(s: &str) -> (r: String)
    ensures
        r@ == normalize_base_path_spec(s@),
{
    let cs = chars_of(s);
    let a = trim_start_char_idx(&cs, '/', 0);
    proof { assert(cs@.skip(0) == cs@); }
    let b = trim_end_char_idx(&cs, '/', cs.len());
    proof { assert(cs@.take(cs.len() as int) == cs@); }
    // the trimmed text is cs[a..max(a, b)]
    let e = if b < a { a } else { b };
    proof {
        let t = cs@.skip(a as int);
        if b < a {
            if a < cs.len() {
                assert(cs@[a as int] == '/');
            }
            assert(t.len() == 0);
        } else {
            assert forall|j: int| e - a <= j < t.len() implies t[j] == '/' by {
                assert(t[j] == cs@[a + j]);
            }
            crate::text::lemma_trim_end_char_take(t, '/', e - a);
            let u = cs@.subrange(a as int, e as int);
            assert(t.take(e - a) =~= u);
            if u.len() > 0 {
                assert(u.last() == cs@[e - 1]);
            }
            assert(trim_end_char(u, '/') == u);
        }
    }
    if e == a {
        proof { assert(cs@.skip(a as int).len() == 0); }
        String::new()
    } else {
        let mut out = String::from_str("/");
        proof { reveal_strlit("/"); }
        push_range(&mut out, &cs, a, e);
        proof { assert(out@ =~= seq!['/'] + cs@.subrange(a as int, e as int)); }
        out
    }
}

// ---------------------------------------------------------------------------
// Named lists
// ---------------------------------------------------------------------------

/// Merge `(name, value)` lists: for each override in turn, replace the value
/// of the first same-named entry in place, or append it.
pub open spec fn merge_named_spec<T>(base: Seq<(Seq<char>, T)>, overrides: Seq<(Seq<char>, T)>) -> Seq<
    (Seq<char>, T),
>
    decreases overrides.len(),
{
    if overrides.len() == 0 {
        base
    } else {
        let acc = merge_named_spec(base, overrides.drop_last());
        let (n, v) = overrides.last();
        match first_named(acc, n) {
            Some(i) => acc.update(i, (n, v)),
            None => acc.push((n, v)),
        }
    }
}

/// First position of `name` in a named list.
pub open spec fn first_named<T>(s: Seq<(Seq<char>, T)>, name: Seq<char>) -> Option<int> {
    if exists|i: int| 0 <= i < s.len() && s[i].0 == name {
        Some(choose|i: int| 0 <= i < s.len() && s[i].0 == name && forall|j: int| 0 <= j < i ==> s[j].0 != name)
    } else {
        None
    }
}

/// View of a named list.
pub open spec fn named_view<T>(v: Seq<(String, T)>) -> Seq<(Seq<char>, T)> {
    v.map_values(|p: (String, T)| (p.0@, p.1))
}

/// `name` names at most one entry of `s`.
pub open spec fn named_at_most_once<T>(s: Seq<(Seq<char>, T)>, name: Seq<char>) -> bool {
    forall|i: int, j: int| 0 <= i < j < s.len() && #[trigger] s[i].0 == name ==> #[trigger] s[j].0 != name
}

/// Position of `name` in a named list, if present.
fn find_named<T>(v: &Vec<(String, T)>, name: &str) -> (r: Option<usize>)
    ensures
        r matches Some(i) ==> i < v@.len() && first_named(named_view(v@), name@) == Some(i as int),
        r is None ==> first_named(named_view(v@), name@) is None,
{
    let mut i: usize = 0;
    while i < v.len()
        invariant
            i <= v.len(),
            forall|j: int| 0 <= j < i ==> named_view(v@)[j].0 != name@,
        decreases v.len() - i,
    {
        if str_eq(v[i].0.as_str(), name) {
            proof {
                assert(named_view(v@)[i as int].0 == name@);
                let w = choose|w: int| 0 <= w < named_view(v@).len() && named_view(v@)[w].0 == name@ && forall|j: int| 0 <= j < w ==> named_view(v@)[j].0 != name@;
                assert(w == i);
            }
            return Some(i);
        }
        i += 1;
    }
    None
}

/// Merge two `(name, value)` lists: start from `base`, then for each entry in
/// `overrides` replace the same-named entry in place or append it. Used for
/// collections and defaults so a theme's entries are the base and the site's
/// win by name.
pub fn merge_named<T>(base: Vec<(String, T)>, overrides: Vec<(String, T)>) -> (r: Vec<(String, T)>)
    ensures
        named_view(r@) == merge_named_spec(named_view(base@), named_view(overrides@)),
{
    let mut acc = base;
    let mut ov = overrides;
    let ghost all = named_view(ov@);
    let ghost total = ov@.len();
    proof { assert(all.take(0) =~= Seq::<(Seq<char>, T)>::empty()); }
    while ov.len() > 0
        invariant
            ov@.len() <= total,
            total == all.len(),
            named_view(ov@) == all.skip(total - ov@.len()),
            named_view(acc@) == merge_named_spec(named_view(base@), all.take(total - ov@.len())),
        decreases ov.len(),
    {
        let ghost ob = ov@;
        let ghost k = total - ob.len();
        let (name, value) = ov.remove(0);
        proof {
            assert(named_view(ob)[0] == all.skip(k)[0]);
            assert(all[k] == (name@, value));
            assert(all.take(k + 1).drop_last() =~= all.take(k));
            assert(all.take(k + 1).last() == all[k]);
            assert forall|j: int| 0 <= j < named_view(ov@).len() implies named_view(ov@)[j] == all.skip(k + 1)[j] by {
                assert(ov@[j] == ob[j + 1]);
                assert(named_view(ob)[j + 1] == all.skip(k)[j + 1]);
            }
            assert(named_view(ov@) =~= all.skip(k + 1));
        }
        let ghost before = named_view(acc@);
        match find_named(&acc, name.as_str()) {
            Some(i) => {
                acc.set(i, (name, value));
                proof { assert(named_view(acc@) =~= before.update(i as int, (name@, value))); }
            },
            None => {
                acc.push((name, value));
                proof { assert(named_view(acc@) =~= before.push((name@, value))); }
            },
        }
    }
    proof { assert(all.take(total as int) == all); }
    acc
}

/// Ensure every `defaults:` entry names a declared collection.
pub fn validate_defaults(defaults: &Vec<(String, Mapping)>, collections: &Vec<(String, Query)>) -> (r:
    Result<(), ConfigError>)
    ensures
        r is Ok <==> forall|i: int|
            0 <= i < defaults@.len() ==> first_named(
                named_view(collections@),
                #[trigger] defaults@[i].0@,
            ) is Some,
        r matches Err(e) ==> e matches ConfigError::UnknownDefaultsCollection(n) && exists|i: int|
            0 <= i < defaults@.len() && defaults@[i].0@ == n@ && first_named(
                named_view(collections@),
                n@,
            ) is None,
{
    let mut i: usize = 0;
    while i < defaults.len()
        invariant
            i <= defaults.len(),
            forall|j: int|
                0 <= j < i ==> first_named(named_view(collections@), #[trigger] defaults@[j].0@) is Some,
        decreases defaults.len() - i,
    {
        match find_named(collections, defaults[i].0.as_str()) {
            Some(_) => {},
            None => {
                return Err(ConfigError::UnknownDefaultsCollection(defaults[i].0.clone()));
            },
        }
        i += 1;
    }
    Ok(())
}

/// Append the `all` collection (every doc, date descending) unless one is
/// declared.
pub fn ensure_all_collection(collections: &mut Vec<(String, Query)>)
    ensures
        first_named(named_view(old(collections)@), ALL@) is Some ==> final(collections)@ == old(collections)@,
        first_named(named_view(old(collections)@), ALL@) is None ==> {
            &&& final(collections)@.len() == old(collections)@.len() + 1
            &&& final(collections)@.take(old(collections)@.len() as int) == old(collections)@
            &&& final(collections)@.last().0@ == ALL@
            &&& final(collections)@.last().1@ == crate::query::default_query_view()
        },
        first_named(named_view(final(collections)@), ALL@) is Some,
        named_at_most_once(named_view(old(collections)@), ALL@) ==> named_at_most_once(
            named_view(final(collections)@),
            ALL@,
        ),
{
    match find_named(collections, ALL) {
        Some(_) => {},
        None => {
            collections.push((String::from_str(ALL), Query::default_query()));
            proof {
                assert(collections@.take(collections@.len() - 1) =~= old(collections)@);
                let o = named_view(old(collections)@);
                let f = named_view(collections@);
                let n = f.len() - 1;
                assert(f[n].0 == ALL@);
                assert(forall|i: int| 0 <= i < o.len() ==> #[trigger] f[i] == o[i]);
                assert(forall|i: int| 0 <= i < o.len() ==> #[trigger] o[i].0 != ALL@);
                assert(first_named(f, ALL@) is Some);
            }
        },
    }
}

/// Theme taxonomies first, then the site's that the theme lacks, in order.
pub open spec fn merge_taxonomies_spec(theme: Seq<Seq<char>>, site: Seq<Seq<char>>) -> Seq<Seq<char>>
    decreases site.len(),
{
    if site.len() == 0 {
        theme
    } else {
        let acc = merge_taxonomies_spec(theme, site.drop_last());
        if acc.contains(site.last()) {
            acc
        } else {
            acc.push(site.last())
        }
    }
}

/// Merge taxonomy name lists: theme first, site appended, duplicates dropped.
pub fn merge_taxonomies(theme: Vec<String>, site: &Vec<String>) -> (r: Vec<String>)
    ensures
        r@.map_values(|s: String| s@) == merge_taxonomies_spec(
            theme@.map_values(|s: String| s@),
            site@.map_values(|s: String| s@),
        ),
{
    let mut acc = theme;
    let ghost tv = acc@.map_values(|s: String| s@);
    let ghost sv = site@.map_values(|s: String| s@);
    let mut i: usize = 0;
    proof { assert(sv.take(0) =~= Seq::<Seq<char>>::empty()); }
    while i < site.len()
        invariant
            i <= site.len(),
            sv == site@.map_values(|s: String| s@),
            acc@.map_values(|s: String| s@) == merge_taxonomies_spec(tv, sv.take(i as int)),
        decreases site.len() - i,
    {
        let t = &site[i];
        let mut j: usize = 0;
        let mut present = false;
        while j < acc.len()
            invariant
                j <= acc.len(),
                present == exists|k: int| 0 <= k < j && acc@[k]@ == t@,
            decreases acc.len() - j,
        {
            if str_eq(acc[j].as_str(), t.as_str()) {
                present = true;
            }
            j += 1;
        }
        let ghost before = acc@.map_values(|s: String| s@);
        proof {
            assert(sv.take(i + 1).drop_last() == sv.take(i as int));
            assert(sv.take(i + 1).last() == t@);
            if present {
                let k = choose|k: int| 0 <= k < acc@.len() && acc@[k]@ == t@;
                assert(before[k] == t@);
            } else {
                assert forall|k: int| 0 <= k < before.len() implies before[k] != t@ by {
                    assert(before[k] == acc@[k]@);
                }
            }
        }
        if !present {
            acc.push(t.clone());
            proof { assert(acc@.map_values(|s: String| s@) =~= before.push(t@)); }
        }
        i += 1;
    }
    proof { assert(sv.take(site@.len() as int) == sv); }
    acc
}

// ---------------------------------------------------------------------------
// Parsing blocks
// ---------------------------------------------------------------------------

/// The mapping a parsed `config.yaml` document configures: the document
/// itself when it is a mapping; an empty one otherwise, so an empty or
/// comment-only file (which parses to null) gives the defaults, as a missing
/// file does.
pub fn document_mapping(doc: Yaml) -> (r: Mapping)
    ensures
        match doc {
            Yaml::Dict(m) => r == m,
            _ => r@.len() == 0,
        },
{
    match doc {
        Yaml::Dict(m) => m,
        _ => Vec::new(),
    }
}

/// `v` is the `collections:` mapping `map` parsed: each name with its query.
pub open spec fn collections_fit(v: Seq<(String, Query)>, map: Seq<(Yaml, Yaml)>) -> bool {
    v.len() == map.len() && forall|i: int|
        0 <= i < map.len() ==> str_of(map[i].0) == Some(#[trigger] v[i].0@) && (dict_of(map[i].1) matches Some(qm)
            && map_get(qm, "limit"@) is None && parse_query(qm) == Ok::<QueryView, QueryError>(v[i].1@))
}

/// A collection's query mapping is rejected: it sets `limit`, or it is not a
/// valid query.
pub open spec fn collection_query_bad(qm: Seq<(Yaml, Yaml)>) -> bool {
    map_get(qm, "limit"@) is Some || parse_query(qm) is Err
}

/// Some entry of the `collections:` mapping is rejected.
pub open spec fn collections_bad(map: Seq<(Yaml, Yaml)>) -> bool {
    exists|i: int|
        0 <= i < map.len() && (str_of(#[trigger] map[i].0) is None || dict_of(map[i].1) is None || (dict_of(map[i].1) matches Some(qm) && collection_query_bad(qm)))
}

/// Entry `e` of a `collections:` mapping is rejected.
pub open spec fn collection_entry_bad(e: (Yaml, Yaml)) -> bool {
    str_of(e.0) is None || dict_of(e.1) is None || (dict_of(e.1) matches Some(qm) && collection_query_bad(qm))
}

/// First rejected entry at or after `i`.
pub open spec fn first_bad_collection(m: Seq<(Yaml, Yaml)>, i: int) -> Option<int>
    decreases m.len() - i,
{
    if i < 0 || i >= m.len() {
        None
    } else if collection_entry_bad(m[i]) {
        Some(i)
    } else {
        first_bad_collection(m, i + 1)
    }
}

/// `e` is the error the first rejected entry of `m` raises: a non-string
/// name, a value that is not a mapping, a `limit`, or the query's own error.
pub open spec fn collection_error_fits(e: ConfigError, m: Seq<(Yaml, Yaml)>) -> bool {
    match first_bad_collection(m, 0) {
        None => false,
        Some(k) => match str_of(m[k].0) {
            None => e is CollectionNameNotString,
            Some(name) => match dict_of(m[k].1) {
                Some(qm) => if map_get(qm, "limit"@) is Some {
                    e matches ConfigError::CollectionLimit(n) && n@ == name
                } else {
                    e matches ConfigError::InCollection(n, qe) && n@ == name && (parse_query(qm) matches Err(k2)
                        && same_kind(qe, k2)) && crate::query::error_text_fits(qe, qm)
                },
                None => e matches ConfigError::CollectionNotMapping(n) && n@ == name,
            },
        },
    }
}

/// First rejected entry of a `defaults:` mapping at or after `i`.
pub open spec fn first_bad_default(m: Seq<(Yaml, Yaml)>, i: int) -> Option<int>
    decreases m.len() - i,
{
    if i < 0 || i >= m.len() {
        None
    } else if str_of(m[i].0) is None || dict_of(m[i].1) is None {
        Some(i)
    } else {
        first_bad_default(m, i + 1)
    }
}

/// `e` is the error the first rejected entry of a `defaults:` mapping
/// raises: a non-string key, or a value that is not a mapping.
pub open spec fn defaults_error_fits(e: ConfigError, m: Seq<(Yaml, Yaml)>) -> bool {
    match first_bad_default(m, 0) {
        None => false,
        Some(k) => match str_of(m[k].0) {
            None => e is DefaultsKeyNotString,
            Some(name) => e matches ConfigError::DefaultsNotMapping(n) && n@ == name,
        },
    }
}

/// `v` is the `defaults:` mapping `map` parsed: each collection name with a
/// copy of its frontmatter.
pub open spec fn defaults_fit(v: Seq<(String, Mapping)>, map: Seq<(Yaml, Yaml)>) -> bool {
    v.len() == map.len() && forall|i: int|
        0 <= i < map.len() ==> str_of(map[i].0) == Some(#[trigger] v[i].0@) && (dict_of(map[i].1) matches Some(d)
            && map_eq(v[i].1@, d))
}

/// Some entry of the `defaults:` mapping is rejected.
pub open spec fn defaults_bad(map: Seq<(Yaml, Yaml)>) -> bool {
    exists|i: int| 0 <= i < map.len() && (str_of(#[trigger] map[i].0) is None || dict_of(map[i].1) is None)
}

/// Parse the `collections:` mapping into named queries, in order. A
/// collection lists every match, so `limit` is refused there (it belongs to
/// listing filters and archive queries).
pub fn parse_collections(map: &Mapping) -> (r: Result<Vec<(String, Query)>, ConfigError>)
    ensures
        r matches Ok(v) ==> collections_fit(v@, map@),
        r is Err ==> collections_bad(map@),
        r matches Err(e) ==> collection_error_fits(e, map@),
        r is Ok ==> !collections_bad(map@),
{
    let mut out: Vec<(String, Query)> = Vec::new();
    let mut i: usize = 0;
    while i < map.len()
        invariant
            i <= map.len(),
            out@.len() == i,
            forall|j: int|
                0 <= j < i ==> str_of(map@[j].0) == Some(#[trigger] out@[j].0@) && (
                dict_of(map@[j].1) matches Some(qm) && map_get(qm, "limit"@) is None && parse_query(qm) == Ok::<
                    QueryView,
                    QueryError,
                >(out@[j].1@)),
            first_bad_collection(map@, 0) == first_bad_collection(map@, i as int),
        decreases map.len() - i,
    {
        let name = match as_str(&map[i].0) {
            Some(n) => n,
            None => return Err(ConfigError::CollectionNameNotString),
        };
        let qm = match as_mapping(&map[i].1) {
            Some(qm) => qm,
            None => return Err(ConfigError::CollectionNotMapping(String::from_str(name))),
        };
        if crate::yaml::contains_key(qm, "limit") {
            return Err(ConfigError::CollectionLimit(String::from_str(name)));
        }
        let q = match Query::from_yaml_mapping(qm) {
            Ok(q) => q,
            Err(e) => return Err(ConfigError::InCollection(String::from_str(name), e)),
        };
        let ghost before = out@;
        let ghost gq = q@;
        out.push((String::from_str(name), q));
        proof {
            assert(!collection_entry_bad(map@[i as int]));
            assert forall|j: int| 0 <= j < i + 1 implies str_of(map@[j].0) == Some(#[trigger] out@[j].0@) && (
            dict_of(map@[j].1) matches Some(qm) && map_get(qm, "limit"@) is None && parse_query(qm) == Ok::<
                QueryView,
                QueryError,
            >(out@[j].1@)) by {
                if j < i {
                    assert(out@[j] == before[j]);
                } else {
                    assert(out@[j].1@ == gq);
                }
            }
        }
        i += 1;
    }
    proof {
        assert forall|k: int| 0 <= k < map@.len() implies !(str_of(#[trigger] map@[k].0) is None || dict_of(map@[k].1) is None || (dict_of(map@[k].1) matches Some(qm) && collection_query_bad(qm))) by {
            assert(str_of(map@[k].0) == Some(out@[k].0@));
        }
    }
    Ok(out)
}

/// Parse the `defaults:` mapping into `(collection name, frontmatter)` pairs,
/// in order.
pub fn parse_defaults(map: &Mapping) -> (r: Result<Vec<(String, Mapping)>, ConfigError>)
    ensures
        r matches Ok(v) ==> defaults_fit(v@, map@),
        r is Err ==> defaults_bad(map@),
        r matches Err(e) ==> defaults_error_fits(e, map@),
        r is Ok ==> !defaults_bad(map@),
{
    let mut out: Vec<(String, Mapping)> = Vec::new();
    let mut i: usize = 0;
    while i < map.len()
        invariant
            i <= map.len(),
            out@.len() == i,
            forall|j: int|
                0 <= j < i ==> str_of(map@[j].0) == Some(#[trigger] out@[j].0@) && (
                dict_of(map@[j].1) matches Some(d) && map_eq(out@[j].1@, d)),
            first_bad_default(map@, 0) == first_bad_default(map@, i as int),
        decreases map.len() - i,
    {
        let name = match as_str(&map[i].0) {
            Some(n) => n,
            None => return Err(ConfigError::DefaultsKeyNotString),
        };
        let fm = match as_mapping(&map[i].1) {
            Some(fm) => fm,
            None => return Err(ConfigError::DefaultsNotMapping(String::from_str(name))),
        };
        let ghost before = out@;
        out.push((String::from_str(name), crate::yaml::mapping_clone(fm)));
        proof {
            assert(!(str_of(map@[i as int].0) is None || dict_of(map@[i as int].1) is None));
            assert forall|j: int| 0 <= j < i + 1 implies str_of(map@[j].0) == Some(#[trigger] out@[j].0@) && (
            dict_of(map@[j].1) matches Some(d) && map_eq(out@[j].1@, d)) by {
                if j < i {
                    assert(out@[j] == before[j]);
                }
            }
        }
        i += 1;
    }
    proof {
        assert forall|k: int| 0 <= k < map@.len() implies !(str_of(#[trigger] map@[k].0) is None || dict_of(map@[k].1) is None) by {
            assert(str_of(map@[k].0) == Some(out@[k].0@));
        }
    }
    Ok(out)
}

/// Parse the `taxonomies:` list of names, in declaration order.
pub fn parse_taxonomy_names(list: Option<&Vec<Yaml>>) -> (r: Result<Vec<String>, ConfigError>)
    ensures
        list is None ==> (r matches Ok(v) && v@.len() == 0),
        list matches Some(l) ==> (r is Ok <==> crate::query::all_strs(l@) is Some),
        list matches Some(l) ==> (r matches Ok(v) ==> crate::query::all_strs(l@) == Some(
            v@.map_values(|s: String| s@),
        )),
        r matches Err(e) ==> e is TaxonomyNotString,
{
    match list {
        None => Ok(Vec::new()),
        Some(l) => match crate::query::strings_of(l) {
            Some(v) => Ok(v),
            None => Err(ConfigError::TaxonomyNotString),
        },
    }
}

// ---------------------------------------------------------------------------
// Reading a config mapping
// ---------------------------------------------------------------------------

/// A directory field: its string, the default when absent, `None` when it
/// holds anything else.
pub open spec fn dir_value(raw: Seq<(Yaml, Yaml)>, key: Seq<char>, dflt: Seq<char>) -> Option<Seq<char>> {
    match map_get(raw, key) {
        None => Some(dflt),
        Some(Yaml::Str(s)) => Some(s@),
        _ => None,
    }
}

/// The `theme:` field: unset or `null` is no theme; `None` for a non-string.
pub open spec fn theme_value(raw: Seq<(Yaml, Yaml)>) -> Option<Option<Seq<char>>> {
    match map_get(raw, "theme"@) {
        None => Some(None),
        Some(Yaml::Null) => Some(None),
        Some(Yaml::Str(s)) => Some(Some(s@)),
        _ => None,
    }
}

/// The `hashtags:` field: off when unset; `None` for a non-boolean.
pub open spec fn hashtags_value(raw: Seq<(Yaml, Yaml)>) -> Option<bool> {
    match map_get(raw, "hashtags"@) {
        None => Some(false),
        Some(Yaml::Bool(b)) => Some(b),
        _ => None,
    }
}

/// Every typed field holds a value of its type.
pub open spec fn fields_ok(raw: Seq<(Yaml, Yaml)>) -> bool {
    &&& dir_value(raw, "content_dir"@, "content"@) is Some
    &&& dir_value(raw, "output_dir"@, "public"@) is Some
    &&& dir_value(raw, "templates_dir"@, "templates"@) is Some
    &&& dir_value(raw, "static_dir"@, "static"@) is Some
    &&& dir_value(raw, "data_dir"@, "data"@) is Some
    &&& dir_value(raw, "archives_dir"@, "archives"@) is Some
    &&& theme_value(raw) is Some
    &&& hashtags_value(raw) is Some
}

/// The first typed field, in reading order, that holds a value of the wrong
/// type.
pub open spec fn field_error(raw: Seq<(Yaml, Yaml)>) -> Option<Seq<char>> {
    if dir_value(raw, "content_dir"@, "content"@) is None {
        Some("content_dir"@)
    } else if dir_value(raw, "output_dir"@, "public"@) is None {
        Some("output_dir"@)
    } else if dir_value(raw, "templates_dir"@, "templates"@) is None {
        Some("templates_dir"@)
    } else if dir_value(raw, "static_dir"@, "static"@) is None {
        Some("static_dir"@)
    } else if dir_value(raw, "data_dir"@, "data"@) is None {
        Some("data_dir"@)
    } else if dir_value(raw, "archives_dir"@, "archives"@) is None {
        Some("archives_dir"@)
    } else if theme_value(raw) is None {
        Some("theme"@)
    } else if hashtags_value(raw) is None {
        Some("hashtags"@)
    } else {
        None
    }
}

/// `e` is the error the `collections:` block raises.
pub open spec fn collections_error(raw: Seq<(Yaml, Yaml)>, e: ConfigError) -> bool {
    match block(raw, "collections"@) {
        Some(m) => collection_error_fits(e, m),
        None => false,
    }
}

/// `e` is the error the `defaults:` block raises.
pub open spec fn defaults_error(raw: Seq<(Yaml, Yaml)>, e: ConfigError) -> bool {
    match block(raw, "defaults"@) {
        Some(m) => defaults_error_fits(e, m),
        None => false,
    }
}

/// The `collections:` block, when it is a mapping.
pub open spec fn block(raw: Seq<(Yaml, Yaml)>, key: Seq<char>) -> Option<Seq<(Yaml, Yaml)>> {
    match map_get(raw, key) {
        Some(Yaml::Dict(m)) => Some(m@),
        _ => None,
    }
}

/// The `taxonomies:` list, when it is a sequence.
pub open spec fn list_block(raw: Seq<(Yaml, Yaml)>, key: Seq<char>) -> Option<Seq<Yaml>> {
    match map_get(raw, key) {
        Some(Yaml::List(l)) => Some(l@),
        _ => None,
    }
}

/// The blocks parse: collections, then defaults, then taxonomies.
pub open spec fn collections_ok(raw: Seq<(Yaml, Yaml)>) -> bool {
    match block(raw, "collections"@) {
        Some(m) => !collections_bad(m),
        None => true,
    }
}

pub open spec fn defaults_ok(raw: Seq<(Yaml, Yaml)>) -> bool {
    match block(raw, "defaults"@) {
        Some(m) => !defaults_bad(m),
        None => true,
    }
}

pub open spec fn taxonomies_ok(raw: Seq<(Yaml, Yaml)>) -> bool {
    match list_block(raw, "taxonomies"@) {
        Some(l) => crate::query::all_strs(l) is Some,
        None => true,
    }
}

/// Read an optional string field into an owned string; `Err` when the value
/// has another type.
fn dir_field(raw: &Mapping, key: &str, dflt: &str) -> (r: Result<String, ConfigError>)
    ensures
        match r {
            Ok(s) => dir_value(raw@, key@, dflt@) == Some(s@),
            Err(e) => dir_value(raw@, key@, dflt@) is None && (e matches ConfigError::FieldType(k) && k@ == key@),
        },
{
    match get(raw, key) {
        None => Ok(String::from_str(dflt)),
        Some(Yaml::Str(s)) => Ok(s.clone()),
        Some(_) => Err(ConfigError::FieldType(String::from_str(key))),
    }
}

impl Config {
    /// Read one `config.yaml` mapping (no theme resolution): the typed fields
    /// (defaults for absent keys), the `collections:`, `defaults:` and
    /// `taxonomies:` blocks, and the raw `site:` sub-mapping. `defaults:` are
    /// not validated against collections here and the URL fields are not
    /// derived; [`Config::finish`] does both once a theme is merged.
    pub fn from_mapping(raw: &Mapping) -> (r: Result<(Config, Mapping), ConfigError>)
        ensures
            r is Ok <==> fields_ok(raw@) && collections_ok(raw@) && defaults_ok(raw@) && taxonomies_ok(raw@),
            r matches Err(e) ==> match e {
                ConfigError::FieldType(k) => field_error(raw@) == Some(k@),
                ConfigError::CollectionNameNotString => fields_ok(raw@) && collections_error(raw@, e),
                ConfigError::CollectionNotMapping(_) => fields_ok(raw@) && collections_error(raw@, e),
                ConfigError::CollectionLimit(_) => fields_ok(raw@) && collections_error(raw@, e),
                ConfigError::InCollection(_, _) => fields_ok(raw@) && collections_error(raw@, e),
                ConfigError::DefaultsKeyNotString => fields_ok(raw@) && collections_ok(raw@) && defaults_error(raw@, e),
                ConfigError::DefaultsNotMapping(_) => fields_ok(raw@) && collections_ok(raw@) && defaults_error(raw@, e),
                ConfigError::TaxonomyNotString => fields_ok(raw@) && collections_ok(raw@) && defaults_ok(raw@)
                    && !taxonomies_ok(raw@),
                ConfigError::UnknownDefaultsCollection(_) => false,
            },
            r matches Ok((c, site)) ==> {
                &&& dir_value(raw@, "content_dir"@, "content"@) == Some(c.content_dir@)
                &&& dir_value(raw@, "output_dir"@, "public"@) == Some(c.output_dir@)
                &&& dir_value(raw@, "templates_dir"@, "templates"@) == Some(c.templates_dir@)
                &&& dir_value(raw@, "static_dir"@, "static"@) == Some(c.static_dir@)
                &&& dir_value(raw@, "data_dir"@, "data"@) == Some(c.data_dir@)
                &&& dir_value(raw@, "archives_dir"@, "archives"@) == Some(c.archives_dir@)
                &&& theme_value(raw@) == Some(opt_view(c.theme))
                &&& hashtags_value(raw@) == Some(c.hashtags)
                &&& c.site_url is None
                &&& c.base_path@.len() == 0
                &&& match block(raw@, "site"@) {
                    Some(m) => map_eq(site@, m),
                    None => site@.len() == 0,
                }
                &&& match block(raw@, "collections"@) {
                    Some(m) => collections_fit(c.collections@, m),
                    None => c.collections@.len() == 0,
                }
                &&& match block(raw@, "defaults"@) {
                    Some(m) => defaults_fit(c.defaults@, m),
                    None => c.defaults@.len() == 0,
                }
                &&& match list_block(raw@, "taxonomies"@) {
                    Some(l) => crate::query::all_strs(l) == Some(c.taxonomies@.map_values(|s: String| s@)),
                    None => c.taxonomies@.len() == 0,
                }
            },
    {
        let content_dir = dir_field(raw, "content_dir", "content")?;
        let output_dir = dir_field(raw, "output_dir", "public")?;
        let templates_dir = dir_field(raw, "templates_dir", "templates")?;
        let static_dir = dir_field(raw, "static_dir", "static")?;
        let data_dir = dir_field(raw, "data_dir", "data")?;
        let archives_dir = dir_field(raw, "archives_dir", "archives")?;
        let theme = match get(raw, "theme") {
            None => None,
            Some(Yaml::Null) => None,
            Some(Yaml::Str(t)) => Some(t.clone()),
            Some(_) => return Err(ConfigError::FieldType(String::from_str("theme"))),
        };
        let hashtags = match get(raw, "hashtags") {
            None => false,
            Some(Yaml::Bool(b)) => *b,
            Some(_) => return Err(ConfigError::FieldType(String::from_str("hashtags"))),
        };
        let site = match get(raw, "site") {
            Some(Yaml::Dict(m)) => mapping_clone(m),
            _ => Vec::new(),
        };
        let collections = match get(raw, "collections") {
            Some(Yaml::Dict(m)) => parse_collections(m)?,
            _ => Vec::new(),
        };
        let defaults = match get(raw, "defaults") {
            Some(Yaml::Dict(m)) => parse_defaults(m)?,
            _ => Vec::new(),
        };
        let taxonomies = match get(raw, "taxonomies") {
            Some(Yaml::List(l)) => parse_taxonomy_names(Some(l))?,
            _ => Vec::new(),
        };
        let config = Config {
            content_dir,
            output_dir,
            templates_dir,
            static_dir,
            data_dir,
            archives_dir,
            theme,
            hashtags,
            site_url: None,
            base_path: String::new(),
            defaults,
            collections,
            taxonomies,
        };
        Ok((config, site))
    }
}

impl Config {
    /// Layer a loaded theme beneath this (site) config: collections and
    /// defaults merge by name with the site winning, taxonomies merge by value
    /// (theme first, then the site's new ones), `hashtags` is on if either
    /// enables it, and the `site:` maps deep-merge with the site winning. The
    /// site's own directories are untouched; `theme` stays as set.
    pub fn apply_theme(&mut self, site: &mut Mapping, theme: Config, theme_site: Mapping)
        ensures
            named_view(final(self).collections@) == merge_named_spec(
                named_view(theme.collections@),
                named_view(old(self).collections@),
            ),
            named_view(final(self).defaults@) == merge_named_spec(named_view(theme.defaults@), named_view(old(self).defaults@)),
            final(self).taxonomies@.map_values(|s: String| s@) == merge_taxonomies_spec(
                theme.taxonomies@.map_values(|s: String| s@),
                old(self).taxonomies@.map_values(|s: String| s@),
            ),
            final(self).hashtags == (old(self).hashtags || theme.hashtags),
            crate::yaml::yvm(final(site)@) == crate::yaml::dmerge(
                crate::yaml::yvm(theme_site@),
                crate::yaml::yvm(old(site)@),
                old(site)@.len() as int,
            ),
            final(self).content_dir == old(self).content_dir,
            final(self).output_dir == old(self).output_dir,
            final(self).templates_dir == old(self).templates_dir,
            final(self).static_dir == old(self).static_dir,
            final(self).data_dir == old(self).data_dir,
            final(self).archives_dir == old(self).archives_dir,
            final(self).theme == old(self).theme,
            final(self).site_url == old(self).site_url,
            final(self).base_path == old(self).base_path,
    {
        let mut mine_c: Vec<(String, Query)> = Vec::new();
        std::mem::swap(&mut mine_c, &mut self.collections);
        self.collections = merge_named(theme.collections, mine_c);
        let mut mine_d: Vec<(String, Mapping)> = Vec::new();
        std::mem::swap(&mut mine_d, &mut self.defaults);
        self.defaults = merge_named(theme.defaults, mine_d);
        let mut mine_t: Vec<String> = Vec::new();
        std::mem::swap(&mut mine_t, &mut self.taxonomies);
        self.taxonomies = merge_taxonomies(theme.taxonomies, &mine_t);
        self.hashtags = self.hashtags || theme.hashtags;
        let mut merged = theme_site;
        let mut mine_s: Mapping = Vec::new();
        std::mem::swap(&mut mine_s, site);
        crate::yaml::deep_merge(&mut merged, mine_s);
        *site = merged;
    }

    /// Settle the configuration once any theme is merged: guarantee an `all`
    /// collection, check that every `defaults:` entry names a collection, and
    /// derive `site_url` and `base_path` from the final `site:` map.
    pub fn finish(&mut self, site: &Mapping) -> (r: Result<(), ConfigError>)
        ensures
            first_named(named_view(old(self).collections@), ALL@) is Some ==> final(self).collections@ == old(self).collections@,
            first_named(named_view(old(self).collections@), ALL@) is None ==> {
                &&& final(self).collections@.len() == old(self).collections@.len() + 1
                &&& final(self).collections@.take(old(self).collections@.len() as int) == old(self).collections@
                &&& final(self).collections@.last().0@ == ALL@
                &&& final(self).collections@.last().1@ == crate::query::default_query_view()
            },
            r is Ok <==> forall|i: int|
                0 <= i < old(self).defaults@.len() ==> first_named(
                    named_view(final(self).collections@),
                    #[trigger] old(self).defaults@[i].0@,
                ) is Some,
            r matches Err(e) ==> e matches ConfigError::UnknownDefaultsCollection(n) && exists|i: int|
                0 <= i < old(self).defaults@.len() && old(self).defaults@[i].0@ == n@ && first_named(
                    named_view(final(self).collections@),
                    n@,
                ) is None,
            r is Ok ==> opt_view(final(self).site_url) == match str_field(site@, "url"@) {
                Some(u) => normalize_site_url_spec(u),
                None => None,
            },
            r is Ok ==> final(self).base_path@ == match str_field(site@, "base_path"@) {
                Some(b) => normalize_base_path_spec(b),
                None => Seq::empty(),
            },
            final(self).defaults == old(self).defaults,
            final(self).taxonomies == old(self).taxonomies,
            first_named(named_view(final(self).collections@), ALL@) is Some,
            named_at_most_once(named_view(old(self).collections@), ALL@) ==> named_at_most_once(
                named_view(final(self).collections@),
                ALL@,
            ),
            final(self).theme == old(self).theme,
            final(self).hashtags == old(self).hashtags,
            final(self).content_dir == old(self).content_dir,
            final(self).output_dir == old(self).output_dir,
            final(self).templates_dir == old(self).templates_dir,
            final(self).static_dir == old(self).static_dir,
            final(self).data_dir == old(self).data_dir,
            final(self).archives_dir == old(self).archives_dir,
    {
        ensure_all_collection(&mut self.collections);
        validate_defaults(&self.defaults, &self.collections)?;
        self.site_url = match get(site, "url") {
            Some(v) => match as_str(v) {
                Some(u) => normalize_site_url(u),
                None => None,
            },
            None => None,
        };
        self.base_path = match get(site, "base_path") {
            Some(v) => match as_str(v) {
                Some(b) => normalize_base_path(b),
                None => String::new(),
            },
            None => String::new(),
        };
        Ok(())
    }
}

} // verus!
