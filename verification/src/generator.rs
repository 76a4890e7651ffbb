//! Generators: files whose frontmatter declares a query and a per-page
//! permalink pattern; the body is the template each emitted page renders.

use vstd::prelude::*;
use crate::query::{default_query_view, parse_query, same_kind, Query, QueryError, QueryView};
use crate::yaml::{as_i64, as_str, as_u64, get, i64_of, map_get, size_field, str_field, Mapping, Yaml};

verus! {

/// One generator file, parsed.
pub struct Generator {
    pub id_path: String,
    pub query: Query,
    pub per_page: Option<usize>,
    pub permalink: String,
    pub template: Option<String>,
    /// Execution order key (lower runs first).
    pub weight: i32,
    pub body: String,
    pub data: Mapping,
}

/// Why a generator header was rejected.
#[derive(Debug, Clone, PartialEq, Eq)]
pub enum GeneratorError {
    MissingPermalink,
    QueryNotMapping,
    InQuery(QueryError),
}

/// `weight`: an integer that fits in `i64`, narrowed to `i32`; 0 otherwise.
pub open spec fn weight_of(d: Seq<(Yaml, Yaml)>) -> i32 {
    match map_get(d, "weight"@) {
        Some(v) => match i64_of(v) {
            Some(n) => n as i32,
            None => 0,
        },
        None => 0,
    }
}

impl Generator {
    /// Build a generator from its id path, frontmatter and body. `permalink`
    /// is required; `query` (a mapping) defaults to every doc, newest first.
    pub fn parse(id_path: String, data: Mapping, body: String) -> (r: Result<Generator, GeneratorError>)
        ensures
            match r {
                Ok(g) => {
                    &&& str_field(data@, "permalink"@) == Some(g.permalink@)
                    &&& g.id_path == id_path
                    &&& g.body == body
                    &&& g.data == data
                    &&& g.per_page == size_field(data@, "per_page"@)
                    &&& match g.template {
                        Some(t) => str_field(data@, "template"@) == Some(t@),
                        None => str_field(data@, "template"@) is None,
                    }
                    &&& g.weight == weight_of(data@)
                    &&& match map_get(data@, "query"@) {
                        Some(Yaml::Dict(m)) => parse_query(m@) == Ok::<QueryView, QueryError>(g.query@),
                        Some(_) => false,
                        None => g.query@ == default_query_view(),
                    }
                },
                Err(e) => match e {
                    GeneratorError::MissingPermalink => str_field(data@, "permalink"@) is None,
                    GeneratorError::QueryNotMapping => str_field(data@, "permalink"@) is Some && match map_get(
                        data@,
                        "query"@,
                    ) {
                        Some(Yaml::Dict(_)) => false,
                        Some(_) => true,
                        None => false,
                    },
                    GeneratorError::InQuery(qe) => str_field(data@, "permalink"@) is Some && match map_get(
                        data@,
                        "query"@,
                    ) {
                        Some(Yaml::Dict(m)) => parse_query(m@) matches Err(k) && same_kind(qe, k),
                        _ => false,
                    },
                },
            },
    {
        let permalink = match get(&data, "permalink") {
            Some(v) => match as_str(v) {
                Some(s) => String::from_str(s),
                None => return Err(GeneratorError::MissingPermalink),
            },
            None => return Err(GeneratorError::MissingPermalink),
        };
        let per_page = match get(&data, "per_page") {
            Some(v) => match as_u64(v) {
                Some(n) => Some(n as usize),
                None => None,
            },
            None => None,
        };
        let template = match get(&data, "template") {
            Some(v) => match as_str(v) {
                Some(s) => Some(String::from_str(s)),
                None => None,
            },
            None => None,
        };
        let weight: i32 = match get(&data, "weight") {
            Some(v) => match as_i64(v) {
                Some(n) => n as i32,
                None => 0,
            },
            None => 0,
        };
        let query = match get(&data, "query") {
            Some(Yaml::Dict(m)) => match Query::from_yaml_mapping(m) {
                Ok(q) => q,
                Err(e) => return Err(GeneratorError::InQuery(e)),
            },
            Some(_) => return Err(GeneratorError::QueryNotMapping),
            None => Query::default_query(),
        };
        Ok(Generator { id_path, query, per_page, permalink, template, weight, body, data })
    }
}

} // verus!
