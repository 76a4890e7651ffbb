//! Archives: files whose frontmatter declares a `kind` (`collection` or
//! `taxonomy`) naming a classification from `config.yaml`. Each archive fans
//! out into view pages; this module parses the header, supplies the built-in
//! sitemap/feed archives, and plans the pagination of an item list.

use vstd::prelude::*;
use crate::date::Date;
use crate::doc::{text_of, Doc};
use crate::doc_index::{bucket_in, kept_positions, recorded_ids, strs, DocIndex};
use crate::listing::{eval_spec, evaluate_on};
use crate::order::docs_of;
use crate::sorted::{find_slot, keys_sorted, lookup};
use crate::permalink::{expand, expand_spec, paginate_pattern, paginate_pattern_spec, to_url, to_url_spec};
use crate::query::{parse_query, same_kind, Query, QueryError, QueryView};
use crate::text::str_eq;
use crate::yaml::{as_str, as_u64, get, map_get, size_field, str_field, Mapping, Yaml};

verus! {

/// What an archive iterates, naming a classification defined in config.
pub enum ArchiveKind {
    Collection { collection: String },
    Taxonomy { taxonomy: String },
}

/// One archive file, parsed. The body is the template each emitted page
/// renders; `data` keeps the verbatim frontmatter.
pub struct Archive {
    pub id_path: String,
    pub kind: ArchiveKind,
    pub per_page: Option<usize>,
    /// Cap on the items paginated (per term for a taxonomy archive); `None`
    /// or `0` means no cap.
    pub limit: Option<usize>,
    pub permalink: String,
    pub template: Option<String>,
    pub body: String,
    pub data: Mapping,
    /// Late-binding query applied per term; only valid on taxonomy archives.
    pub query: Option<Query>,
}

/// Why an archive header was rejected.
#[derive(Debug, Clone, PartialEq, Eq)]
pub enum ArchiveError {
    MissingPermalink,
    MissingKind,
    UnknownKind(String),
    /// The kind's companion key (`collection` or `taxonomy`) is missing.
    MissingName(String),
    QueryNotMapping,
    InQuery(QueryError),
    QueryOnCollection,
}

/// The header is accepted: a `permalink`, a known `kind` with its companion
/// name, and a well-formed `query` only on a taxonomy archive.
pub open spec fn archive_ok(d: Seq<(Yaml, Yaml)>) -> bool {
    &&& str_field(d, "permalink"@) is Some
    &&& match str_field(d, "kind"@) {
        Some(k) => if k == "collection"@ {
            str_field(d, "collection"@) is Some && map_get(d, "query"@) is None
        } else if k == "taxonomy"@ {
            &&& str_field(d, "taxonomy"@) is Some
            &&& match map_get(d, "query"@) {
                None => true,
                Some(q) => crate::yaml::dict_of(q) matches Some(qm) && parse_query(qm) is Ok,
            }
        } else {
            false
        },
        None => false,
    }
}

/// The `query:` value when it is a mapping.
pub open spec fn query_dict(d: Seq<(Yaml, Yaml)>) -> Option<Seq<(Yaml, Yaml)>> {
    match map_get(d, "query"@) {
        Some(v) => crate::yaml::dict_of(v),
        None => None,
    }
}

/// The error reported for a header, checked in order: permalink, kind,
/// companion name, query shape, query content, query on a collection.
pub open spec fn error_fits(e: ArchiveError, d: Seq<(Yaml, Yaml)>) -> bool {
    let permalink_ok = str_field(d, "permalink"@) is Some;
    let kind = str_field(d, "kind"@);
    let name_key = if kind == Some("collection"@) { "collection"@ } else { "taxonomy"@ };
    let known = kind == Some("collection"@) || kind == Some("taxonomy"@);
    let named = known && permalink_ok && str_field(d, name_key) is Some;
    match e {
        ArchiveError::MissingPermalink => !permalink_ok,
        ArchiveError::MissingKind => permalink_ok && kind is None,
        ArchiveError::UnknownKind(k) => permalink_ok && kind == Some(k@) && !known,
        ArchiveError::MissingName(key) => permalink_ok && known && key@ == name_key && str_field(
            d,
            name_key,
        ) is None,
        ArchiveError::QueryNotMapping => named && map_get(d, "query"@) is Some && query_dict(d) is None,
        ArchiveError::InQuery(qe) => {
            &&& named
            &&& query_dict(d) matches Some(qm)
            &&& parse_query(qm) matches Err(k)
            &&& same_kind(qe, k)
        },
        ArchiveError::QueryOnCollection => {
            &&& named
            &&& kind == Some("collection"@)
            &&& query_dict(d) matches Some(qm)
            &&& parse_query(qm) is Ok
        },
    }
}

/// The parsed kind matches the header's `kind` and companion name.
pub open spec fn kind_fits(k: ArchiveKind, d: Seq<(Yaml, Yaml)>) -> bool {
    match k {
        ArchiveKind::Collection { collection } => str_field(d, "kind"@) == Some("collection"@)
            && str_field(d, "collection"@) == Some(collection@),
        ArchiveKind::Taxonomy { taxonomy } => str_field(d, "kind"@) == Some("taxonomy"@) && str_field(
            d,
            "taxonomy"@,
        ) == Some(taxonomy@),
    }
}

/// Read `data[key]` as an owned string.
fn string_field(data: &Mapping, key: &str) -> (r: Option<String>)
    ensures
        match r {
            Some(s) => str_field(data@, key@) == Some(s@),
            None => str_field(data@, key@) is None,
        },
{
    match get(data, key) {
        Some(v) => match as_str(v) {
            Some(s) => Some(String::from_str(s)),
            None => None,
        },
        None => None,
    }
}

/// Read `data[key]` as a size.
fn usize_field(data: &Mapping, key: &str) -> (r: Option<usize>)
    ensures
        r == size_field(data@, key@),
{
    match get(data, key) {
        Some(v) => match as_u64(v) {
            Some(n) => Some(n as usize),
            None => None,
        },
        None => None,
    }
}

impl Archive {
    /// Build an archive from its id path, its frontmatter and its body.
    /// `kind` and `permalink` are required; the kind's companion key names the
    /// collection or taxonomy; a `query:` mapping is accepted on taxonomy
    /// archives only.
    pub fn parse(id_path: String, data: Mapping, body: String) -> (r: Result<Archive, ArchiveError>)
        ensures
            r is Ok <==> archive_ok(data@),
            r matches Err(e) ==> error_fits(e, data@),
            r matches Ok(a) ==> {
                &&& a.id_path == id_path
                &&& a.body == body
                &&& a.data == data
                &&& str_field(data@, "permalink"@) == Some(a.permalink@)
                &&& a.per_page == size_field(data@, "per_page"@)
                &&& a.limit == size_field(data@, "limit"@)
                &&& match a.template {
                    Some(t) => str_field(data@, "template"@) == Some(t@),
                    None => str_field(data@, "template"@) is None,
                }
                &&& kind_fits(a.kind, data@)
                &&& match a.query {
                    None => map_get(data@, "query"@) is None,
                    Some(q) => map_get(data@, "query"@) matches Some(v) && crate::yaml::dict_of(v) matches Some(qm)
                        && parse_query(qm) == Ok::<QueryView, QueryError>(q@),
                }
            },
    {
        proof {
            reveal_strlit("collection");
            reveal_strlit("taxonomy");
        }
        let permalink = match string_field(&data, "permalink") {
            Some(p) => p,
            None => return Err(ArchiveError::MissingPermalink),
        };
        let per_page = usize_field(&data, "per_page");
        let limit = usize_field(&data, "limit");
        let template = string_field(&data, "template");
        let kind_str = match string_field(&data, "kind") {
            Some(k) => k,
            None => return Err(ArchiveError::MissingKind),
        };
        let kind = if str_eq(kind_str.as_str(), "collection") {
            match string_field(&data, "collection") {
                Some(c) => ArchiveKind::Collection { collection: c },
                None => return Err(ArchiveError::MissingName(String::from_str("collection"))),
            }
        } else if str_eq(kind_str.as_str(), "taxonomy") {
            match string_field(&data, "taxonomy") {
                Some(t) => ArchiveKind::Taxonomy { taxonomy: t },
                None => return Err(ArchiveError::MissingName(String::from_str("taxonomy"))),
            }
        } else {
            return Err(ArchiveError::UnknownKind(kind_str));
        };
        let query = match get(&data, "query") {
            None => None,
            Some(v) => match crate::yaml::as_mapping(v) {
                Some(m) => match Query::from_yaml_mapping(m) {
                    Ok(q) => Some(q),
                    Err(e) => return Err(ArchiveError::InQuery(e)),
                },
                None => return Err(ArchiveError::QueryNotMapping),
            },
        };
        let on_collection = match &kind {
            ArchiveKind::Collection { .. } => true,
            ArchiveKind::Taxonomy { .. } => false,
        };
        if query.is_some() && on_collection {
            return Err(ArchiveError::QueryOnCollection);
        }
        Ok(Archive { id_path, kind, per_page, limit, permalink, template, body, data, query })
    }
}

// ---------------------------------------------------------------------------
// Built-in archives
// ---------------------------------------------------------------------------

/// Cap on items in a built-in feed (most recent N, per the collection's own
/// order). Sitemaps are uncapped.
pub const DEFAULT_FEED_LIMIT: usize = 20;

/// `sitemap.xml` body: a `<urlset>` over every page in the covered collection.
pub const SITEMAP_BODY: &'static str = r#"<?xml version="1.0" encoding="UTF-8"?>
<urlset xmlns="http://www.sitemaps.org/schemas/sitemap/0.9">
{% for doc in pagination.items %}  <url><loc>{{ doc.id_path | permalink }}</loc><lastmod>{{ doc.updated | date(format="%Y-%m-%d") }}</lastmod></url>
{% endfor %}</urlset>
"#;

/// RSS 2.0 feed body over the covered collection (capped by `limit`).
pub const FEED_BODY: &'static str = r#"<?xml version="1.0" encoding="utf-8"?>
<rss version="2.0">
<channel>
  <title>{{ site.title | default(value="") }}</title>
  <link>{{ "" | absolute_url }}</link>
  <description>{{ site.description | default(value="") }}</description>
{% for post in pagination.items %}  <item>
    <title>{{ post.title }}</title>
    <link>{{ post.id_path | permalink }}</link>
    <guid>{{ post.id_path | permalink }}</guid>
    <pubDate>{{ post.date | date(format="%a, %d %b %Y %H:%M:%S +0000") }}</pubDate>
    <description>{{ post.content | striptags | truncate_words(length=80) }}</description>
  </item>
{% endfor %}</channel>
</rss>
"#;

/// Id path of the built-in feed over `collection`: `feed/<collection>.xml`.
pub open spec fn feed_id(collection: Seq<char>) -> Seq<char> {
    "feed/"@ + collection + ".xml"@
}

/// `a` is the built-in sitemap archive over `collection`.
pub open spec fn is_sitemap_archive(a: Archive, collection: Seq<char>) -> bool {
    &&& a.id_path@ == "sitemap.xml"@
    &&& a.kind matches ArchiveKind::Collection { collection: c } && c@ == collection
    &&& a.per_page is None
    &&& a.limit is None
    &&& a.permalink@ == "/sitemap.xml"@
    &&& a.template is None
    &&& a.body@ == SITEMAP_BODY@
    &&& a.data@.len() == 0
    &&& a.query is None
}

/// `a` is the built-in feed archive over `collection`.
pub open spec fn is_feed_archive(a: Archive, collection: Seq<char>) -> bool {
    &&& a.id_path@ == feed_id(collection)
    &&& a.kind matches ArchiveKind::Collection { collection: c } && c@ == collection
    &&& a.per_page is None
    &&& a.limit == Some(DEFAULT_FEED_LIMIT)
    &&& a.permalink@ == "/"@ + feed_id(collection)
    &&& a.template is None
    &&& a.body@ == FEED_BODY@
    &&& a.data@.len() == 0
    &&& a.query is None
}

/// `a` is one of the built-ins requested: the sitemap over `sitemap`'s
/// collection or a feed over one of `feeds`.
pub open spec fn is_builtin(a: Archive, sitemap: Option<&str>, feeds: Seq<String>) -> bool {
    ||| (sitemap matches Some(c) && is_sitemap_archive(a, c@))
    ||| exists|i: int| 0 <= i < feeds.len() && is_feed_archive(a, (#[trigger] feeds[i])@)
}

/// Some archive in `v` has id path `id`.
pub open spec fn has_id(v: Seq<Archive>, id: Seq<char>) -> bool {
    exists|j: int| 0 <= j < v.len() && (#[trigger] v[j]).id_path@ == id
}

/// Built-in `sitemap.xml` archive over `collection`, output at `/sitemap.xml`.
pub fn sitemap_archive(collection: &str) -> (r: Archive)
    ensures
        is_sitemap_archive(r, collection@),
{
    Archive {
        id_path: String::from_str("sitemap.xml"),
        kind: ArchiveKind::Collection { collection: String::from_str(collection) },
        per_page: None,
        limit: None,
        permalink: String::from_str("/sitemap.xml"),
        template: None,
        body: String::from_str(SITEMAP_BODY),
        data: Vec::new(),
        query: None,
    }
}

/// Built-in feed archive over `collection`, output at `/feed/<collection>.xml`.
pub fn feed_archive(collection: &str) -> (r: Archive)
    ensures
        is_feed_archive(r, collection@),
{
    let mut id_path = String::from_str("feed/");
    id_path.append(collection);
    id_path.append(".xml");
    let mut permalink = String::from_str("/");
    permalink.append(id_path.as_str());
    Archive {
        id_path,
        kind: ArchiveKind::Collection { collection: String::from_str(collection) },
        per_page: None,
        limit: Some(DEFAULT_FEED_LIMIT),
        permalink,
        template: None,
        body: String::from_str(FEED_BODY),
        data: Vec::new(),
        query: None,
    }
}

/// Is some archive in `v` at id path `id`?
fn owns_id(v: &Vec<Archive>, id: &str) -> (r: bool)
    ensures
        r == has_id(v@, id@),
{
    let mut j: usize = 0;
    while j < v.len()
        invariant
            j <= v.len(),
            forall|k: int| 0 <= k < j ==> (#[trigger] v@[k]).id_path@ != id@,
        decreases v.len() - j,
    {
        if str_eq(v[j].id_path.as_str(), id) {
            return true;
        }
        j += 1;
    }
    false
}

/// Add the built-in sitemap over `collection` unless an archive already owns
/// `sitemap.xml` (a disk archive of that name overrides the built-in).
pub fn add_sitemap(archives: &mut Vec<Archive>, collection: &str)
    ensures
        has_id(old(archives)@, "sitemap.xml"@) ==> final(archives)@ == old(archives)@,
        !has_id(old(archives)@, "sitemap.xml"@) ==> {
            &&& final(archives)@.len() == old(archives)@.len() + 1
            &&& final(archives)@.take(old(archives)@.len() as int) == old(archives)@
            &&& is_sitemap_archive(final(archives)@.last(), collection@)
        },
{
    if !owns_id(archives, "sitemap.xml") {
        archives.push(sitemap_archive(collection));
        proof { assert(archives@.take(archives@.len() - 1) =~= old(archives)@); }
    }
}

/// Add the built-in feed over `collection` unless an archive already owns
/// `feed/<collection>.xml`.
pub fn add_feed(archives: &mut Vec<Archive>, collection: &str)
    ensures
        has_id(old(archives)@, feed_id(collection@)) ==> final(archives)@ == old(archives)@,
        !has_id(old(archives)@, feed_id(collection@)) ==> {
            &&& final(archives)@.len() == old(archives)@.len() + 1
            &&& final(archives)@.take(old(archives)@.len() as int) == old(archives)@
            &&& is_feed_archive(final(archives)@.last(), collection@)
        },
{
    let mut id = String::from_str("feed/");
    id.append(collection);
    id.append(".xml");
    if !owns_id(archives, id.as_str()) {
        archives.push(feed_archive(collection));
        proof { assert(archives@.take(archives@.len() - 1) =~= old(archives)@); }
    }
}

/// The built-in archives a site's config asks for: `sitemap: <collection>`
/// enables the sitemap over that collection, and `feed: [<collection>, ..]`
/// one feed per listed collection. Any other value enables nothing.
pub open spec fn builtin_settings_spec(raw: Seq<(Yaml, Yaml)>) -> (Option<Seq<char>>, Seq<Seq<char>>) {
    (
        str_field(raw, "sitemap"@),
        match map_get(raw, "feed"@) {
            Some(Yaml::List(l)) => match crate::query::all_strs(l@) {
                Some(v) => v,
                None => Seq::empty(),
            },
            _ => Seq::empty(),
        },
    )
}

/// Read the built-in archive settings from a raw config mapping.
pub fn builtin_settings(raw: &Mapping) -> (r: (Option<String>, Vec<String>))
    ensures
        (match r.0 {
            Some(s) => Some(s@),
            None => None,
        }, r.1@.map_values(|s: String| s@)) == builtin_settings_spec(raw@),
{
    let sitemap = match get(raw, "sitemap") {
        Some(v) => match crate::yaml::as_str(v) {
            Some(s) => Some(String::from_str(s)),
            None => None,
        },
        None => None,
    };
    let feeds = match get(raw, "feed") {
        Some(Yaml::List(l)) => match crate::query::strings_of(l) {
            Some(v) => v,
            None => {
                let v: Vec<String> = Vec::new();
                proof { assert(v@.map_values(|s: String| s@) =~= Seq::<Seq<char>>::empty()); }
                v
            },
        },
        _ => {
            let v: Vec<String> = Vec::new();
            proof { assert(v@.map_values(|s: String| s@) =~= Seq::<Seq<char>>::empty()); }
            v
        },
    };
    (sitemap, feeds)
}

/// Inject the built-in archives as the lowest overlay layer: the sitemap
/// (when enabled) and one feed per listed collection, each only when no
/// archive already owns its id path.
pub fn add_builtins(archives: &mut Vec<Archive>, sitemap: Option<&str>, feeds: &Vec<String>)
    ensures
        final(archives)@.len() >= old(archives)@.len(),
        final(archives)@.take(old(archives)@.len() as int) == old(archives)@,
        sitemap matches Some(c) ==> has_id(final(archives)@, "sitemap.xml"@),
        forall|i: int| 0 <= i < feeds@.len() ==> has_id(final(archives)@, feed_id(#[trigger] feeds@[i]@)),
        forall|j: int|
            old(archives)@.len() <= j < final(archives)@.len() ==> is_builtin(
                #[trigger] final(archives)@[j],
                sitemap,
                feeds@,
            ),
{
    let ghost start = archives@;
    match sitemap {
        Some(c) => {
            add_sitemap(archives, c);
            proof {
                if has_id(start, "sitemap.xml"@) {
                    let j = choose|j: int| 0 <= j < start.len() && (#[trigger] start[j]).id_path@ == "sitemap.xml"@;
                    assert(archives@[j] == start[j]);
                } else {
                    assert(archives@[archives@.len() - 1].id_path@ == "sitemap.xml"@);
                }
            }
        },
        None => {},
    }
    let ghost mid = archives@;
    let mut i: usize = 0;
    while i < feeds.len()
        invariant
            i <= feeds.len(),
            mid.len() >= start.len(),
            mid.take(start.len() as int) == start,
            archives@.len() >= mid.len(),
            archives@.take(mid.len() as int) == mid,
            sitemap matches Some(c) ==> has_id(mid, "sitemap.xml"@),
            forall|k: int| 0 <= k < i ==> has_id(archives@, feed_id(#[trigger] feeds@[k]@)),
            forall|j: int|
                start.len() <= j < mid.len() ==> (sitemap matches Some(c) && is_sitemap_archive(
                    #[trigger] mid[j],
                    c@,
                )),
            forall|j: int|
                mid.len() <= j < archives@.len() ==> exists|k: int|
                    0 <= k < feeds@.len() && is_feed_archive(#[trigger] archives@[j], feeds@[k]@),
        decreases feeds.len() - i,
    {
        let ghost before = archives@;
        add_feed(archives, feeds[i].as_str());
        proof {
            assert forall|k: int| 0 <= k <= i implies has_id(archives@, feed_id(#[trigger] feeds@[k]@)) by {
                if k < i || has_id(before, feed_id(feeds@[k]@)) {
                    let w = choose|w: int| 0 <= w < before.len() && (#[trigger] before[w]).id_path@ == feed_id(feeds@[k]@);
                    assert(archives@[w] == before[w]);
                } else {
                    assert(archives@[archives@.len() - 1].id_path@ == feed_id(feeds@[k]@));
                }
            }
            assert forall|j: int| mid.len() <= j < archives@.len() implies exists|k: int|
                0 <= k < feeds@.len() && is_feed_archive(#[trigger] archives@[j], feeds@[k]@) by {
                if j < before.len() {
                    assert(archives@[j] == before[j]);
                } else {
                    assert(is_feed_archive(archives@[j], feeds@[i as int]@));
                }
            }
            assert(archives@.take(mid.len() as int) =~= mid);
        }
        i += 1;
    }
    proof {
        assert(archives@.take(start.len() as int) =~= start);
        if sitemap is Some {
            let j = choose|j: int| 0 <= j < mid.len() && (#[trigger] mid[j]).id_path@ == "sitemap.xml"@;
            assert(archives@[j] == mid[j]);
        }
        assert(start == old(archives)@);
        assert forall|j: int| old(archives)@.len() <= j < archives@.len() implies is_builtin(
            #[trigger] archives@[j],
            sitemap,
            feeds@,
        ) by {
            if j < mid.len() {
                assert(archives@[j] == mid[j]);
                assert(sitemap matches Some(c) && is_sitemap_archive(mid[j], c@));
            } else {
                let k = choose|k: int| 0 <= k < feeds@.len() && is_feed_archive(#[trigger] archives@[j], feeds@[k]@);
                assert(is_feed_archive(archives@[j], feeds@[k]@));
            }
        }
    }
}

// ---------------------------------------------------------------------------
// Pagination
// ---------------------------------------------------------------------------

/// One emitted page of an archive run: its 1-based number, the page count,
/// the half-open item range it shows, where it is written, and its
/// neighbours' URLs.
pub struct PagePlan {
    pub current: usize,
    pub total: usize,
    pub start: usize,
    pub end: usize,
    pub output_path: String,
    pub prev_url: Option<String>,
    pub next_url: Option<String>,
}

/// The Unix epoch, the date archive pages are expanded against.
pub open spec fn epoch_date() -> Date {
    Date { secs: 0, nanos: 0, year: 1970, month: 1, day: 1 }
}

/// Items paginated: `n` capped by a positive `limit`.
pub open spec fn capped(n: nat, limit: Option<usize>) -> nat {
    match limit {
        Some(l) => if l > 0 && l < n { l as nat } else { n },
        None => n,
    }
}

/// Items per page: a positive `per_page`, else everything on one page.
pub open spec fn page_size(count: nat, per_page: Option<usize>) -> nat {
    match per_page {
        Some(p) => if p > 0 { p as nat } else if count == 0 { 1 } else { count },
        None => if count == 0 { 1 } else { count },
    }
}

/// Number of pages: one for an empty run, else `ceil(count / size)`.
pub open spec fn page_total(count: nat, size: nat) -> nat {
    if count == 0 { 1 } else { ((count - 1) / (size as int) + 1) as nat }
}

/// End of page `i`'s range: `min((i + 1) * size, count)`.
pub open spec fn page_end(i: nat, size: nat, count: nat) -> nat {
    if (i + 1) * size < count { ((i + 1) * size) as nat } else { count }
}

/// Output path of page `page` (1-based) of an archive run.
pub open spec fn page_path(permalink: Seq<char>, id_path: Seq<char>, page: nat, term: Option<Seq<char>>) -> Seq<char> {
    expand_spec(paginate_pattern_spec(permalink, page), id_path, epoch_date(), term)
}

/// `Option<&str>` by its view.
pub open spec fn opt_str(o: Option<&str>) -> Option<Seq<char>> {
    match o {
        Some(t) => Some(t@),
        None => None,
    }
}

/// The plan of page `i` (0-based) of a run over `count` items.
pub open spec fn page_fits(p: PagePlan, a: Archive, count: nat, term: Option<Seq<char>>, i: nat) -> bool {
    let size = page_size(count, a.per_page);
    let total = page_total(count, size);
    &&& p.current == i + 1
    &&& p.total == total
    &&& p.start == i * size
    &&& p.end == page_end(i, size, count)
    &&& p.output_path@ == page_path(a.permalink@, a.id_path@, i + 1, term)
    &&& match p.prev_url {
        Some(u) => i > 0 && u@ == to_url_spec(page_path(a.permalink@, a.id_path@, i as nat, term)),
        None => i == 0,
    }
    &&& match p.next_url {
        Some(u) => i + 1 < total && u@ == to_url_spec(page_path(a.permalink@, a.id_path@, i + 2, term)),
        None => i + 1 >= total,
    }
}

proof fn lemma_page_arith(count: nat, size: nat, i: nat)
    requires
        size > 0,
        count > 0,
        i < (count - 1) / (size as int) + 1,
    ensures
        i * size < count,
        (i + 1) * size == i * size + size,
        i + 1 == (count - 1) / (size as int) + 1 ==> (i + 1) * size >= count,
{
    let q = (count - 1) / (size as int);
    assert(q * size <= count - 1) by (nonlinear_arith)
        requires q == (count - 1) / (size as int), size > 0, count > 0;
    assert(i * size <= q * size) by (nonlinear_arith)
        requires i <= q, size > 0;
    assert((i + 1) * size == i * size + size) by (nonlinear_arith);
    assert((q + 1) * size >= count) by (nonlinear_arith)
        requires q == (count - 1) / (size as int), size > 0, count > 0;
}

/// Page URL for page `page` of the run.
fn page_url(a: &Archive, page: usize, term: Option<&str>) -> (r: String)
    ensures
        r@ == to_url_spec(page_path(a.permalink@, a.id_path@, page as nat, opt_str(term))),
{
    let pattern = paginate_pattern(a.permalink.as_str(), page);
    let epoch = Date::epoch();
    to_url(expand(pattern.as_str(), a.id_path.as_str(), &epoch, term).as_str())
}

/// Plan the pages of one archive run over `n_items` items (for a taxonomy
/// archive, one term's items; `term` is that term's slug). A positive `limit`
/// caps the items first; a positive `per_page` then splits them, otherwise
/// one page holds every item. Page 1 is written at the archive's permalink;
/// page `N ≥ 2` under its `page/N/` segment.
#[verifier::rlimit(40)]
pub fn plan_pages(a: &Archive, n_items: usize, term: Option<&str>) -> (r: Vec<PagePlan>)
    ensures
        r@.len() == page_total(capped(n_items as nat, a.limit), page_size(capped(n_items as nat, a.limit), a.per_page)),
        forall|i: int| 0 <= i < r@.len() ==> page_fits(#[trigger] r@[i], *a, capped(n_items as nat, a.limit), opt_str(term), i as nat),
        // the pages cover the capped items exactly, in order, none empty
        // unless the run is
        r@[0].start == 0,
        r@.last().end == capped(n_items as nat, a.limit),
        forall|i: int| 0 <= i < r@.len() - 1 ==> #[trigger] r@[i].end == r@[i + 1].start,
        forall|i: int| 0 <= i < r@.len() ==> #[trigger] r@[i].start <= r@[i].end,
        capped(n_items as nat, a.limit) > 0 ==> forall|i: int| 0 <= i < r@.len() ==> #[trigger] r@[i].start < r@[i].end,
{
    let count: usize = match a.limit {
        Some(l) => if l > 0 && l < n_items { l } else { n_items },
        None => n_items,
    };
    let size: usize = match a.per_page {
        Some(p) => if p > 0 { p } else if count == 0 { 1 } else { count },
        None => if count == 0 { 1 } else { count },
    };
    let total: usize = if count == 0 { 1 } else { (count - 1) / size + 1 };
    proof {
        assert(count as nat == capped(n_items as nat, a.limit));
        assert(size as nat == page_size(count as nat, a.per_page));
        if count > 0 {
            assert((count - 1) / (size as int) <= count - 1) by (nonlinear_arith)
                requires size > 0, count > 0;
        }
    }
    let mut pages: Vec<PagePlan> = Vec::new();
    let mut i: usize = 0;
    while i < total
        invariant
            i <= total,
            size > 0,
            count as nat == capped(n_items as nat, a.limit),
            size as nat == page_size(count as nat, a.per_page),
            total as nat == page_total(count as nat, size as nat),
            pages@.len() == i,
            forall|k: int| 0 <= k < i ==> page_fits(#[trigger] pages@[k], *a, count as nat, opt_str(term), k as nat),
            forall|k: int| 0 <= k < i ==> #[trigger] pages@[k].start <= pages@[k].end,
            count > 0 ==> forall|k: int| 0 <= k < i ==> #[trigger] pages@[k].start < pages@[k].end,
            forall|k: int| 0 <= k < i - 1 ==> #[trigger] pages@[k].end == pages@[k + 1].start,
            i > 0 ==> pages@[i - 1].end == (if i == total { count as int } else { i * size }),
            i > 0 ==> pages@[0].start == 0,
        decreases total - i,
    {
        let ghost gi = i as nat;
        let start: usize;
        let end: usize;
        if count == 0 {
            start = 0;
            end = 0;
            proof { assert(i == 0); }
        } else {
            proof { lemma_page_arith(count as nat, size as nat, gi); }
            start = i * size;
            if count - start < size {
                end = count;
            } else {
                end = start + size;
            }
        }
        let page = i + 1;
        let output_path = {
            let pattern = paginate_pattern(a.permalink.as_str(), page);
            let epoch = Date::epoch();
            expand(pattern.as_str(), a.id_path.as_str(), &epoch, term)
        };
        let prev_url = if page > 1 { Some(page_url(a, page - 1, term)) } else { None };
        let next_url = if page < total { Some(page_url(a, page + 1, term)) } else { None };
        let p = PagePlan { current: page, total, start, end, output_path, prev_url, next_url };
        proof {
            if count == 0 {
                assert(page_end(0, size as nat, 0) == 0);
            } else {
                lemma_page_arith(count as nat, size as nat, gi);
                if gi + 1 < total {
                    lemma_page_arith(count as nat, size as nat, gi + 1);
                }
            }
            assert(page_fits(p, *a, count as nat, opt_str(term), gi));
        }
        pages.push(p);
        i += 1;
    }
    proof {
        if count > 0 {
            lemma_page_arith(count as nat, size as nat, (total - 1) as nat);
        }
    }
    pages
}

// ---------------------------------------------------------------------------
// Runs: what an archive paginates
// ---------------------------------------------------------------------------

/// One paginated run of an archive: the whole collection, or one term of a
/// taxonomy (with its slug and display text), as store positions.
pub struct Run {
    pub term: Option<(String, String)>,
    pub items: Vec<usize>,
}

/// Display text of term `slug` of taxonomy `tax`: from the first item whose
/// bucket carries it.
pub open spec fn term_text(ds: Seq<Doc>, ps: Seq<usize>, tax: Seq<char>, slug: Seq<char>) -> Option<Seq<char>>
    decreases ps.len(),
{
    if ps.len() == 0 {
        None
    } else {
        match text_of(bucket_in(ds[ps[0] as int], tax), slug) {
            Some(t) => Some(t),
            None => term_text(ds, ps.drop_first(), tax, slug),
        }
    }
}

/// The positions a taxonomy term's run lists: its recorded docs, filtered
/// and ordered by the archive's query when it has one.
pub open spec fn term_items(docs: Seq<(String, Doc)>, ids: Seq<Seq<char>>, q: Option<QueryView>) -> Seq<usize> {
    let ps = kept_positions(docs, ids, Seq::empty());
    match q {
        Some(qv) => eval_spec(qv, docs_of(docs), ps),
        None => ps,
    }
}

/// The runs of a taxonomy archive over the terms `tx` (in term order): a
/// term whose query leaves no item is skipped.
pub open spec fn tax_runs(docs: Seq<(String, Doc)>, tx: Seq<(String, Vec<String>)>, q: Option<QueryView>, tax: Seq<char>) -> Seq<
    (Seq<char>, Seq<char>, Seq<usize>),
>
    decreases tx.len(),
{
    if tx.len() == 0 {
        Seq::empty()
    } else {
        let r = tax_runs(docs, tx.drop_last(), q, tax);
        let slug = tx.last().0@;
        let items = term_items(docs, strs(tx.last().1@), q);
        if q is Some && items.len() == 0 {
            r
        } else {
            r.push(
                (
                    slug,
                    match term_text(docs_of(docs), items, tax, slug) {
                        Some(t) => t,
                        None => slug,
                    },
                    items,
                ),
            )
        }
    }
}

/// A run as plain values.
pub open spec fn run_view(r: Run) -> (Option<(Seq<char>, Seq<char>)>, Seq<usize>) {
    (
        match r.term {
            Some((s, t)) => Some((s@, t@)),
            None => None,
        },
        r.items@,
    )
}

/// The query of an archive, as plain values.
pub open spec fn query_of(a: Archive) -> Option<QueryView> {
    match a.query {
        Some(q) => Some(q@),
        None => None,
    }
}

/// Store positions of the docs under `ids`, skipping ids with no doc.
fn positions_of(index: &DocIndex, ids: &Vec<String>) -> (r: Vec<usize>)
    requires
        index.wf(),
    ensures
        r@ == kept_positions(index.docs@, strs(ids@), Seq::empty()),
        forall|k: int| 0 <= k < r@.len() ==> #[trigger] r@[k] < index.docs@.len(),
{
    let ghost gids = strs(ids@);
    let mut ps: Vec<usize> = Vec::new();
    let mut i: usize = 0;
    proof { assert(gids.take(0) =~= Seq::<Seq<char>>::empty()); }
    while i < ids.len()
        invariant
            index.wf(),
            i <= ids@.len(),
            gids == strs(ids@),
            ps@ == kept_positions(index.docs@, gids.take(i as int), Seq::empty()),
            forall|k: int| 0 <= k < ps@.len() ==> #[trigger] ps@[k] < index.docs@.len(),
        decreases ids.len() - i,
    {
        proof {
            assert(gids.take(i + 1).drop_last() =~= gids.take(i as int));
            assert(gids.take(i + 1).last() == ids@[i as int]@);
            assert(!Seq::<Seq<char>>::empty().contains(ids@[i as int]@));
        }
        let (found, p) = find_slot(&index.docs, ids[i].as_str());
        if found {
            proof { crate::doc_index::lemma_pos_of_pub(index.docs@, p as int); }
            ps.push(p);
        }
        i += 1;
    }
    proof { assert(gids.take(ids@.len() as int) =~= gids); }
    ps
}

/// Display text of term `slug` from the first of `ps` carrying it.
fn find_term_text(index: &DocIndex, ps: &Vec<usize>, tax: &str, slug: &str) -> (r: Option<String>)
    requires
        index.wf(),
        forall|k: int| 0 <= k < ps@.len() ==> #[trigger] ps@[k] < index.docs@.len(),
    ensures
        match r {
            Some(t) => term_text(docs_of(index.docs@), ps@, tax@, slug@) == Some(t@),
            None => term_text(docs_of(index.docs@), ps@, tax@, slug@) is None,
        },
{
    let ghost ds = docs_of(index.docs@);
    let mut i: usize = 0;
    proof { assert(ps@.skip(0) =~= ps@); }
    while i < ps.len()
        invariant
            index.wf(),
            ds == docs_of(index.docs@),
            i <= ps@.len(),
            forall|k: int| 0 <= k < ps@.len() ==> #[trigger] ps@[k] < index.docs@.len(),
            term_text(ds, ps@, tax@, slug@) == term_text(ds, ps@.skip(i as int), tax@, slug@),
        decreases ps.len() - i,
    {
        let d = &index.docs[ps[i]].1;
        proof {
            assert(ps@.skip(i as int)[0] == ps@[i as int]);
            assert(ps@.skip(i as int).drop_first() =~= ps@.skip(i + 1));
            assert(ds[ps@[i as int] as int] == *d);
            assert(keys_sorted(d.terms@));
        }
        match crate::sorted::get(&d.terms, tax) {
            Some(b) => {
                proof {
                    crate::sorted::lemma_lookup_some(d.terms@, tax@);
                    let w = choose|w: int| 0 <= w < d.terms@.len() && (#[trigger] d.terms@[w]).0@ == tax@ && lookup(d.terms@, tax@) == Some(d.terms@[w].1);
                    assert(keys_sorted(d.terms@[w].1@));
                }
                match crate::sorted::get(b, slug) {
                    Some(t) => {
                        return Some(t.clone());
                    },
                    None => {},
                }
            },
            None => {},
        }
        i += 1;
    }
    None
}

impl DocIndex {
    /// The runs an archive paginates: the named collection's docs as one run,
    /// or one run per term of the named taxonomy (in term order) with that
    /// term's docs, filtered and ordered by the archive's query when it has
    /// one (a term left empty by the query gets no run). An unknown taxonomy
    /// yields no run.
    pub fn archive_runs(&self, a: &Archive) -> (r: Vec<Run>)
        requires
            self.wf(),
        ensures
            match a.kind {
                ArchiveKind::Collection { collection } => r@.len() == 1 && run_view(r@[0]) == (
                    None::<(Seq<char>, Seq<char>)>,
                    kept_positions(self.docs@, recorded_ids(self.collections@, collection@), Seq::empty()),
                ),
                ArchiveKind::Taxonomy { taxonomy } => match lookup(self.taxonomies@, taxonomy@) {
                    None => r@.len() == 0,
                    Some(tx) => r@.map_values(|x: Run| run_view(x)) == tax_runs(self.docs@, tx@, query_of(*a), taxonomy@).map_values(
                        |t: (Seq<char>, Seq<char>, Seq<usize>)| (Some((t.0, t.1)), t.2),
                    ),
                },
            },
    {
        match &a.kind {
            ArchiveKind::Collection { collection } => {
                let ids = match crate::sorted::get(&self.collections, collection.as_str()) {
                    Some(ids) => positions_of(self, ids),
                    None => {
                        let empty: Vec<String> = Vec::new();
                        proof { assert(strs(empty@) =~= Seq::<Seq<char>>::empty()); }
                        positions_of(self, &empty)
                    },
                };
                let mut out: Vec<Run> = Vec::new();
                out.push(Run { term: None, items: ids });
                out
            },
            ArchiveKind::Taxonomy { taxonomy } => {
                let tx = match crate::sorted::get(&self.taxonomies, taxonomy.as_str()) {
                    Some(tx) => tx,
                    None => return Vec::new(),
                };
                let ghost gq = query_of(*a);
                let mut out: Vec<Run> = Vec::new();
                let mut i: usize = 0;
                proof { assert(tx@.take(0) =~= Seq::<(String, Vec<String>)>::empty()); }
                while i < tx.len()
                    invariant
                        self.wf(),
                        i <= tx@.len(),
                        gq == query_of(*a),
                        out@.map_values(|x: Run| run_view(x)) == tax_runs(self.docs@, tx@.take(i as int), gq, taxonomy@).map_values(
                            |t: (Seq<char>, Seq<char>, Seq<usize>)| (Some((t.0, t.1)), t.2),
                        ),
                    decreases tx.len() - i,
                {
                    proof {
                        assert(tx@.take(i + 1).drop_last() =~= tx@.take(i as int));
                        assert(tx@.take(i + 1).last() == tx@[i as int]);
                    }
                    let slug = &tx[i].0;
                    let mut items = positions_of(self, &tx[i].1);
                    let mut skip = false;
                    match &a.query {
                        Some(q) => {
                            items = evaluate_on(q, &self.docs, &items);
                            if items.len() == 0 {
                                skip = true;
                            }
                        },
                        None => {},
                    }
                    if !skip {
                        let text = match find_term_text(self, &items, taxonomy.as_str(), slug.as_str()) {
                            Some(t) => t,
                            None => slug.clone(),
                        };
                        let ghost before = out@.map_values(|x: Run| run_view(x));
                        let run = Run { term: Some((slug.clone(), text)), items };
                        let ghost rv = run_view(run);
                        out.push(run);
                        proof { assert(out@.map_values(|x: Run| run_view(x)) =~= before.push(rv)); }
                    }
                    i += 1;
                }
                proof { assert(tx@.take(tx@.len() as int) =~= tx@); }
                out
            },
        }
    }
}

} // verus!
