//! Queries: a path glob, a tag, an order, a direction, an omit list and a
//! limit, as written in `collections:` and archive `query:` blocks.

use vstd::prelude::*;
use crate::yaml::{
    str_field,
    as_str, as_u64, get, key_pos, map_get, str_of, u64_of, list_of, is_str, lemma_key_pos, Mapping, Yaml,
};
use crate::text::str_eq;

verus! {

/// The key a list is ordered by.
#[derive(Debug, Clone, Copy, PartialEq, Eq, Structural)]
pub enum OrderKey {
    Title,
    Date,
    Updated,
}

/// Ascending or descending.
#[derive(Debug, Clone, Copy, PartialEq, Eq, Structural)]
pub enum SortDir {
    Asc,
    Desc,
}

/// A query over docs. `path` is a glob pattern (matched with `/` as a literal
/// separator), `tag` a term matched by slug, `omit` a list of `id_path`s.
pub struct Query {
    pub path: Option<String>,
    pub tag: Option<String>,
    pub order_by: OrderKey,
    pub sort: SortDir,
    pub limit: Option<usize>,
    pub omit: Vec<String>,
}

/// Why a query mapping was rejected.
#[derive(Debug, Clone, PartialEq, Eq)]
pub enum QueryError {
    NonStringKey,
    UnknownKey(String),
    PathNotString,
    InvalidGlob(String),
    TagNotString,
    OrderByNotString,
    BadOrderBy(String),
    SortNotString,
    BadSort(String),
    OmitNotSequence,
    OmitEntryNotString,
    LimitNotNonNegative,
    LimitNotInteger,
}

/// The query as plain values.
pub struct QueryView {
    pub path: Option<Seq<char>>,
    pub tag: Option<Seq<char>>,
    pub order_by: OrderKey,
    pub sort: SortDir,
    pub limit: Option<usize>,
    pub omit: Seq<Seq<char>>,
}

impl View for Query {
    type V = QueryView;

    open spec fn view(&self) -> QueryView {
        QueryView {
            path: match self.path {
                Some(p) => Some(p@),
                None => None,
            },
            tag: match self.tag {
                Some(t) => Some(t@),
                None => None,
            },
            order_by: self.order_by,
            sort: self.sort,
            limit: self.limit,
            omit: self.omit@.map_values(|s: String| s@),
        }
    }
}

/// The default query: every doc, newest first.
pub open spec fn default_query_view() -> QueryView {
    QueryView {
        path: None,
        tag: None,
        order_by: OrderKey::Date,
        sort: SortDir::Desc,
        limit: None,
        omit: Seq::empty(),
    }
}

impl Query {
    /// Every doc, date descending, no limit.
    pub fn default_query() -> (r: Query)
        ensures
            r@ == default_query_view(),
    {
        let r = Query {
            path: None,
            tag: None,
            order_by: OrderKey::Date,
            sort: SortDir::Desc,
            limit: None,
            omit: Vec::new(),
        };
        proof { assert(r@.omit =~= Seq::<Seq<char>>::empty()); }
        r
    }
}

/// Whether `globset` accepts `pattern` (built with `literal_separator(true)`)
/// and compiles it into a matcher.
pub uninterp spec fn glob_ok(pattern: Seq<char>) -> bool;

/// Whether the compiled glob `pattern` (built with `literal_separator(true)`)
/// matches `path`; meaningful where `glob_ok(pattern)` holds.
pub uninterp spec fn glob_match(pattern: Seq<char>, path: Seq<char>) -> bool;

/// Calls `GlobBuilder::new(pattern).literal_separator(true).build()` and then
/// `GlobSetBuilder::new().add(glob).build()`, and reports whether both
/// succeeded; the contract names that `glob_ok`.
#[verifier::external_body]
pub(crate) fn glob_is_valid(pattern: &str) -> (r: bool)
    ensures
        r == glob_ok(pattern@),
{
    match globset::GlobBuilder::new(pattern).literal_separator(true).build() {
        Ok(g) => globset::GlobSetBuilder::new().add(g).build().is_ok(),
        Err(_) => false,
    }
}

/// Builds the pattern as [`glob_is_valid`] does, then calls
/// `GlobSet::is_match(path)`; `None` when either build fails (neither
/// panics). The contract names the answer `glob_match`.
#[verifier::external_body]
pub(crate) fn glob_is_match(pattern: &str, path: &str) -> (r: Option<bool>)
    ensures
        r == (if glob_ok(pattern@) {
            Some(glob_match(pattern@, path@))
        } else {
            None
        }),
{
    match globset::GlobBuilder::new(pattern).literal_separator(true).build() {
        Ok(g) => match globset::GlobSetBuilder::new().add(g).build() {
            Ok(set) => Some(set.is_match(path)),
            Err(_) => None,
        },
        Err(_) => None,
    }
}

/// `path` matches the glob `pattern`; a pattern `globset` cannot compile
/// matches nothing.
pub open spec fn glob_hits(pattern: Seq<char>, path: Seq<char>) -> bool {
    glob_ok(pattern) && glob_match(pattern, path)
}

/// Whether `path` matches the glob `pattern`; `false` for a pattern that
/// does not compile.
pub fn glob_matches(pattern: &str, path: &str) -> (r: bool)
    ensures
        r == glob_hits(pattern@, path@),
{
    match glob_is_match(pattern, path) {
        Some(b) => b,
        None => false,
    }
}

/// The keys a query mapping may hold.
pub open spec fn known_key(k: Seq<char>) -> bool {
    k == "path"@ || k == "tag"@ || k == "order_by"@ || k == "sort"@ || k == "limit"@ || k
        == "omit"@
}

/// Which key-validation error, if any, the keys `m[from..]` raise.
pub open spec fn key_error(m: Seq<(Yaml, Yaml)>, from: int) -> Option<QueryError>
    decreases m.len() - from,
{
    if from < 0 || from >= m.len() {
        None
    } else {
        match str_of(m[from].0) {
            None => Some(QueryError::NonStringKey),
            Some(k) => if known_key(k) {
                key_error(m, from + 1)
            } else {
                Some(QueryError::UnknownKey(arbitrary()))
            },
        }
    }
}

/// The error kind of a query error, ignoring the text it carries.
pub open spec fn same_kind(a: QueryError, b: QueryError) -> bool {
    match (a, b) {
        (QueryError::UnknownKey(_), QueryError::UnknownKey(_)) => true,
        (QueryError::InvalidGlob(_), QueryError::InvalidGlob(_)) => true,
        (QueryError::BadOrderBy(_), QueryError::BadOrderBy(_)) => true,
        (QueryError::BadSort(_), QueryError::BadSort(_)) => true,
        _ => a == b,
    }
}

/// The strings of a sequence of YAML values, if all are strings.
pub open spec fn all_strs(s: Seq<Yaml>) -> Option<Seq<Seq<char>>>
    decreases s.len(),
{
    if s.len() == 0 {
        Some(Seq::empty())
    } else {
        match (all_strs(s.drop_last()), str_of(s.last())) {
            (Some(p), Some(x)) => Some(p.push(x)),
            _ => None,
        }
    }
}

/// The result of parsing a query mapping: the parsed query, or the first
/// error in this order — keys, `path`, `tag`, `order_by`, `sort`, `omit`,
/// `limit`.
pub open spec fn parse_query(m: Seq<(Yaml, Yaml)>) -> Result<QueryView, QueryError> {
    if key_error(m, 0) is Some {
        Err(key_error(m, 0)->0)
    } else {
        let path = map_get(m, "path"@);
        let tag = map_get(m, "tag"@);
        let ob = map_get(m, "order_by"@);
        let so = map_get(m, "sort"@);
        let om = map_get(m, "omit"@);
        let li = map_get(m, "limit"@);
        if path is Some && str_of(path->0) is None {
            Err(QueryError::PathNotString)
        } else if path is Some && !glob_ok(str_of(path->0)->0) {
            Err(QueryError::InvalidGlob(arbitrary()))
        } else if tag is Some && str_of(tag->0) is None {
            Err(QueryError::TagNotString)
        } else if ob is Some && str_of(ob->0) is None {
            Err(QueryError::OrderByNotString)
        } else if ob is Some && !(str_of(ob->0)->0 == "title"@ || str_of(ob->0)->0 == "date"@
            || str_of(ob->0)->0 == "updated"@) {
            Err(QueryError::BadOrderBy(arbitrary()))
        } else if so is Some && str_of(so->0) is None {
            Err(QueryError::SortNotString)
        } else if so is Some && !(str_of(so->0)->0 == "asc"@ || str_of(so->0)->0 == "desc"@) {
            Err(QueryError::BadSort(arbitrary()))
        } else if om is Some && list_of(om->0) is None {
            Err(QueryError::OmitNotSequence)
        } else if om is Some && all_strs(list_of(om->0)->0) is None {
            Err(QueryError::OmitEntryNotString)
        } else if li is Some && !(li->0 is Int || li->0 is Float) {
            Err(QueryError::LimitNotInteger)
        } else if li is Some && u64_of(li->0) is None {
            Err(QueryError::LimitNotNonNegative)
        } else {
            Ok(
                QueryView {
                    path: match path {
                        Some(v) => str_of(v),
                        None => None,
                    },
                    tag: match tag {
                        Some(v) => str_of(v),
                        None => None,
                    },
                    order_by: match ob {
                        Some(v) => if str_of(v)->0 == "title"@ {
                            OrderKey::Title
                        } else if str_of(v)->0 == "date"@ {
                            OrderKey::Date
                        } else {
                            OrderKey::Updated
                        },
                        None => OrderKey::Date,
                    },
                    sort: match so {
                        Some(v) => if str_of(v)->0 == "asc"@ {
                            SortDir::Asc
                        } else {
                            SortDir::Desc
                        },
                        None => SortDir::Desc,
                    },
                    limit: match li {
                        Some(v) => Some(u64_of(v)->0 as usize),
                        None => None,
                    },
                    omit: match om {
                        Some(v) => all_strs(list_of(v)->0)->0,
                        None => Seq::empty(),
                    },
                },
            )
        }
    }
}

/// The text of the key the key scan stops at, when it stops at an unknown
/// string key.
pub open spec fn unknown_key_at(m: Seq<(Yaml, Yaml)>, from: int) -> Option<Seq<char>>
    decreases m.len() - from,
{
    if from < 0 || from >= m.len() {
        None
    } else {
        match str_of(m[from].0) {
            None => None,
            Some(k) => if known_key(k) {
                unknown_key_at(m, from + 1)
            } else {
                Some(k)
            },
        }
    }
}

/// The text an error carries is the offending text: the unknown key, the
/// rejected glob, `order_by` or `sort` value.
pub open spec fn error_text_fits(e: QueryError, m: Seq<(Yaml, Yaml)>) -> bool {
    match e {
        QueryError::UnknownKey(k) => unknown_key_at(m, 0) == Some(k@),
        QueryError::InvalidGlob(p) => str_field(m, "path"@) == Some(p@),
        QueryError::BadOrderBy(t) => str_field(m, "order_by"@) == Some(t@),
        QueryError::BadSort(t) => str_field(m, "sort"@) == Some(t@),
        _ => true,
    }
}

/// Check the keys of a query mapping.
fn check_keys(m: &Mapping) -> (r: Result<(), QueryError>)
    ensures
        r is Ok <==> key_error(m@, 0) is None,
        r matches Err(e) ==> key_error(m@, 0) matches Some(k) && same_kind(e, k),
        r matches Err(e) ==> error_text_fits(e, m@),
{
    let mut i: usize = 0;
    while i < m.len()
        invariant
            i <= m.len(),
            key_error(m@, 0) == key_error(m@, i as int),
            unknown_key_at(m@, 0) == unknown_key_at(m@, i as int),
        decreases m.len() - i,
    {
        let k = match as_str(&m[i].0) {
            Some(k) => k,
            None => return Err(QueryError::NonStringKey),
        };
        proof {
            reveal_strlit("path");
            reveal_strlit("tag");
            reveal_strlit("order_by");
            reveal_strlit("sort");
            reveal_strlit("limit");
            reveal_strlit("omit");
        }
        if !(str_eq(k, "path") || str_eq(k, "tag") || str_eq(k, "order_by") || str_eq(k, "sort")
            || str_eq(k, "limit") || str_eq(k, "omit")) {
            return Err(QueryError::UnknownKey(String::from_str(k)));
        }
        i += 1;
    }
    Ok(())
}

/// The strings of a YAML sequence, if all its entries are strings.
pub fn strings_of(s: &Vec<Yaml>) -> (r: Option<Vec<String>>)
    ensures
        r matches Some(v) ==> all_strs(s@) == Some(v@.map_values(|x: String| x@)),
        r is None ==> all_strs(s@) is None,
{
    let mut out: Vec<String> = Vec::new();
    let mut i: usize = 0;
    proof { assert(s@.take(0) =~= Seq::<Yaml>::empty()); }
    while i < s.len()
        invariant
            i <= s.len(),
            all_strs(s@.take(i as int)) == Some(out@.map_values(|x: String| x@)),
        decreases s.len() - i,
    {
        proof { assert(s@.take(i + 1).drop_last() == s@.take(i as int)); }
        match as_str(&s[i]) {
            Some(x) => {
                out.push(String::from_str(x));
                proof {
                    assert(out@.map_values(|x: String| x@) =~= out@.drop_last().map_values(|x: String| x@).push(x@));
                }
            },
            None => {
                proof { lemma_all_strs_none(s@, i as int + 1); }
                return None;
            },
        }
        i += 1;
    }
    proof { assert(s@.take(s.len() as int) == s@); }
    Some(out)
}

proof fn lemma_all_strs_none(s: Seq<Yaml>, n: int)
    requires
        1 <= n <= s.len(),
        all_strs(s.take(n)) is None,
    ensures
        all_strs(s) is None,
    decreases s.len() - n,
{
    if n < s.len() {
        assert(s.take(n + 1).drop_last() == s.take(n));
        lemma_all_strs_none(s, n + 1);
    } else {
        assert(s.take(n) == s);
    }
}

impl Query {
    /// Build from a YAML map (e.g. a collection's or an archive's `query:`
    /// sub-mapping). Unknown keys are rejected so typos fail loudly.
    pub fn from_yaml_mapping(m: &Mapping) -> (r: Result<Query, QueryError>)
        ensures
            r matches Ok(q) ==> parse_query(m@) == Ok::<QueryView, QueryError>(q@),
            r matches Err(e) ==> parse_query(m@) matches Err(k) && same_kind(e, k),
            r matches Err(e) ==> error_text_fits(e, m@),
            r is Ok <==> parse_query(m@) is Ok,
    {
        proof {
            reveal_strlit("path");
            reveal_strlit("tag");
            reveal_strlit("order_by");
            reveal_strlit("sort");
            reveal_strlit("limit");
            reveal_strlit("omit");
            reveal_strlit("title");
            reveal_strlit("date");
            reveal_strlit("updated");
            reveal_strlit("asc");
            reveal_strlit("desc");
        }
        check_keys(m)?;
        let mut q = Query::default_query();
        match get(m, "path") {
            Some(v) => {
                let s = match as_str(v) {
                    Some(s) => s,
                    None => return Err(QueryError::PathNotString),
                };
                if !glob_is_valid(s) {
                    return Err(QueryError::InvalidGlob(String::from_str(s)));
                }
                q.path = Some(String::from_str(s));
            },
            None => {},
        }
        match get(m, "tag") {
            Some(v) => {
                let s = match as_str(v) {
                    Some(s) => s,
                    None => return Err(QueryError::TagNotString),
                };
                q.tag = Some(String::from_str(s));
            },
            None => {},
        }
        match get(m, "order_by") {
            Some(v) => {
                let s = match as_str(v) {
                    Some(s) => s,
                    None => return Err(QueryError::OrderByNotString),
                };
                q.order_by = if str_eq(s, "title") {
                    OrderKey::Title
                } else if str_eq(s, "date") {
                    OrderKey::Date
                } else if str_eq(s, "updated") {
                    OrderKey::Updated
                } else {
                    return Err(QueryError::BadOrderBy(String::from_str(s)));
                };
            },
            None => {},
        }
        match get(m, "sort") {
            Some(v) => {
                let s = match as_str(v) {
                    Some(s) => s,
                    None => return Err(QueryError::SortNotString),
                };
                q.sort = if str_eq(s, "asc") {
                    SortDir::Asc
                } else if str_eq(s, "desc") {
                    SortDir::Desc
                } else {
                    return Err(QueryError::BadSort(String::from_str(s)));
                };
            },
            None => {},
        }
        match get(m, "omit") {
            Some(v) => {
                let seq = match crate::yaml::as_sequence(v) {
                    Some(seq) => seq,
                    None => return Err(QueryError::OmitNotSequence),
                };
                q.omit = match strings_of(seq) {
                    Some(o) => o,
                    None => return Err(QueryError::OmitEntryNotString),
                };
            },
            None => {},
        }
        match get(m, "limit") {
            Some(v) => {
                match v {
                    Yaml::Int(_) | Yaml::Float(_) => {},
                    _ => return Err(QueryError::LimitNotInteger),
                }
                let n = match as_u64(v) {
                    Some(n) => n,
                    None => return Err(QueryError::LimitNotNonNegative),
                };
                q.limit = Some(n as usize);
            },
            None => {},
        }
        Ok(q)
    }
}

} // verus!
