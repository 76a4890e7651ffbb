//! Declared taxonomies: named classifications, each read from a frontmatter
//! field of the same name unless a different `field` is given.

use vstd::prelude::*;
use crate::yaml::{as_str, get, is_str, map_get, str_of, Mapping, Yaml};
use crate::text::str_eq;

verus! {

/// The name of the built-in taxonomy.
pub const BUILTIN: &'static str = "tags";

/// A taxonomy: its name, and the frontmatter field its terms are read from.
#[derive(Debug, Clone, PartialEq, Eq)]
pub struct Taxonomy {
    pub name: String,
    pub field: String,
}

impl Taxonomy {
    /// A taxonomy whose field is its own name.
    pub fn new(name: String) -> (r: Taxonomy)
        ensures
            r.name@ == name@,
            r.field@ == name@,
    {
        let field = name.clone();
        Taxonomy { name, field }
    }
}

/// Why a `taxonomies:` block was rejected.
#[derive(Debug, Clone, PartialEq, Eq)]
pub enum TaxonomyError {
    /// A key that is not a string.
    NonStringKey,
    /// A `field:` that is not a string, for the named taxonomy.
    NonStringField(String),
    /// A value that is neither a mapping, null, `true` nor `false`.
    BadValue(String),
}

/// A declared taxonomy as plain values.
pub open spec fn tax_view(t: Taxonomy) -> (Seq<char>, Seq<char>) {
    (t.name@, t.field@)
}

/// The field a declaration value gives the taxonomy `name`; `None` when the
/// value is rejected.
pub open spec fn decl_field(name: Seq<char>, v: Yaml) -> Option<Seq<char>> {
    match v {
        Yaml::Null => Some(name),
        Yaml::Bool(true) => Some(name),
        Yaml::Dict(m) => match map_get(m@, "field"@) {
            Some(f) => str_of(f),
            None => Some(name),
        },
        _ => None,
    }
}

/// Remove every taxonomy called `name`.
pub open spec fn tax_remove(ts: Seq<(Seq<char>, Seq<char>)>, name: Seq<char>) -> Seq<(Seq<char>, Seq<char>)> {
    ts.filter(|t: (Seq<char>, Seq<char>)| t.0 != name)
}

/// Set the field of the taxonomy `name`, or append it.
pub open spec fn tax_upsert(ts: Seq<(Seq<char>, Seq<char>)>, name: Seq<char>, field: Seq<char>) -> Seq<(Seq<char>, Seq<char>)> {
    if exists|i: int| 0 <= i < ts.len() && ts[i].0 == name {
        let i = choose|i: int| 0 <= i < ts.len() && ts[i].0 == name && forall|j: int| 0 <= j < i ==> ts[j].0 != name;
        ts.update(i, (name, field))
    } else {
        ts.push((name, field))
    }
}

/// A rejected `taxonomies:` block, as plain values.
pub enum TaxErr {
    NonStringKey,
    NonStringField(Seq<char>),
    BadValue(Seq<char>),
}

/// The plain view of an error.
pub open spec fn err_view(e: TaxonomyError) -> TaxErr {
    match e {
        TaxonomyError::NonStringKey => TaxErr::NonStringKey,
        TaxonomyError::NonStringField(n) => TaxErr::NonStringField(n@),
        TaxonomyError::BadValue(n) => TaxErr::BadValue(n@),
    }
}

/// Why the declaration value `v` of taxonomy `name` is rejected.
pub open spec fn decl_error(name: Seq<char>, v: Yaml) -> TaxErr {
    match v {
        Yaml::Dict(_) => TaxErr::NonStringField(name),
        _ => TaxErr::BadValue(name),
    }
}

/// The result of reading the declarations `m[..n]` in order, or the error
/// of the first rejected one.
pub open spec fn parse_prefix(m: Seq<(Yaml, Yaml)>, n: int) -> Result<Seq<(Seq<char>, Seq<char>)>, TaxErr>
    decreases n,
{
    if n <= 0 {
        Ok(Seq::empty())
    } else {
        match parse_prefix(m, n - 1) {
            Err(e) => Err(e),
            Ok(ts) => {
                let (k, v) = m[n - 1];
                match str_of(k) {
                    None => Err(TaxErr::NonStringKey),
                    Some(name) => if v == Yaml::Bool(false) {
                        Ok(tax_remove(ts, name))
                    } else {
                        match decl_field(name, v) {
                            Some(f) => Ok(tax_upsert(ts, name, f)),
                            None => Err(decl_error(name, v)),
                        }
                    },
                }
            },
        }
    }
}

/// Parse a `taxonomies:` mapping of `name: null | true | false | { field: f }`.
/// Declaration order is kept; `false` removes a previously declared name; a
/// repeated name updates the field in place.
pub fn parse(map: Option<&Mapping>) -> (r: Result<Vec<Taxonomy>, TaxonomyError>)
    ensures
        match map {
            None => r matches Ok(ts) && ts@.len() == 0,
            Some(m) => match r {
                Ok(ts) => parse_prefix(m@, m@.len() as int) == Ok::<_, TaxErr>(
                    ts@.map_values(|t: Taxonomy| tax_view(t)),
                ),
                Err(e) => parse_prefix(m@, m@.len() as int) == Err::<Seq<(Seq<char>, Seq<char>)>, TaxErr>(err_view(e)),
            },
        },
{
    let mut out: Vec<Taxonomy> = Vec::new();
    let m = match map {
        None => return Ok(out),
        Some(m) => m,
    };
    let mut i: usize = 0;
    proof { assert(out@.map_values(|t: Taxonomy| tax_view(t)) =~= Seq::<(Seq<char>, Seq<char>)>::empty()); }
    while i < m.len()
        invariant
            i <= m.len(),
            map == Some(m),
            parse_prefix(m@, i as int) == Ok::<_, TaxErr>(out@.map_values(|t: Taxonomy| tax_view(t))),
        decreases m.len() - i,
    {
        let name = match as_str(&m[i].0) {
            Some(n) => n,
            None => {
                proof { lemma_parse_prefix_err(m@, i as int + 1); }
                return Err(TaxonomyError::NonStringKey);
            },
        };
        let v = &m[i].1;
        if let Yaml::Bool(false) = v {
            let ghost before = out@;
            let mut kept: Vec<Taxonomy> = Vec::new();
            let mut j: usize = 0;
            while j < out.len()
                invariant
                    j <= out.len(),
                    out@ == before,
                    kept@.map_values(|t: Taxonomy| tax_view(t)) == before.take(j as int).map_values(|t: Taxonomy| tax_view(t)).filter(|t: (Seq<char>, Seq<char>)| t.0 != name@),
                decreases out.len() - j,
            {
                let ghost kb = kept@;
                if !str_eq(out[j].name.as_str(), name) {
                    kept.push(Taxonomy { name: out[j].name.clone(), field: out[j].field.clone() });
                }
                proof {
                    let pv = before.take(j + 1).map_values(|t: Taxonomy| tax_view(t));
                    assert(pv.drop_last() == before.take(j as int).map_values(|t: Taxonomy| tax_view(t)));
                    reveal(Seq::filter);
                    assert(pv == pv.drop_last().push(pv.last()));
                    assert(kept@.map_values(|t: Taxonomy| tax_view(t)) =~= if pv.last().0 != name@ { kb.map_values(|t: Taxonomy| tax_view(t)).push(pv.last()) } else { kb.map_values(|t: Taxonomy| tax_view(t)) });
                }
                j += 1;
            }
            proof { assert(before.take(before.len() as int) == before); }
            out = kept;
        } else {
            let field = match v {
                Yaml::Null => String::from_str(name),
                Yaml::Bool(true) => String::from_str(name),
                Yaml::Dict(fm) => match get(fm, "field") {
                    Some(f) => match as_str(f) {
                        Some(s) => String::from_str(s),
                        None => {
                            proof { lemma_parse_prefix_err(m@, i as int + 1); }
                            return Err(TaxonomyError::NonStringField(String::from_str(name)));
                        },
                    },
                    None => String::from_str(name),
                },
                _ => {
                    proof { lemma_parse_prefix_err(m@, i as int + 1); }
                    return Err(TaxonomyError::BadValue(String::from_str(name)));
                },
            };
            let ghost before = out@.map_values(|t: Taxonomy| tax_view(t));
            let mut j: usize = 0;
            while j < out.len() && !str_eq(out[j].name.as_str(), name)
                invariant
                    j <= out.len(),
                    out@.map_values(|t: Taxonomy| tax_view(t)) == before,
                    forall|k: int| 0 <= k < j ==> before[k].0 != name@,
                decreases out.len() - j,
            {
                j += 1;
            }
            let found = j < out.len();
            if found {
                out.set(j, Taxonomy { name: String::from_str(name), field });
                proof {
                    assert(before[j as int].0 == name@);
                    let w = choose|w: int| 0 <= w < before.len() && before[w].0 == name@ && forall|q: int| 0 <= q < w ==> before[q].0 != name@;
                    assert(w == j);
                    assert(out@.map_values(|t: Taxonomy| tax_view(t)) =~= before.update(j as int, (name@, field@)));
                }
            } else {
                out.push(Taxonomy { name: String::from_str(name), field });
                proof {
                    assert(out@.map_values(|t: Taxonomy| tax_view(t)) =~= before.push((name@, field@)));
                }
            }
        }
        i += 1;
    }
    Ok(out)
}

proof fn lemma_parse_prefix_err(m: Seq<(Yaml, Yaml)>, n: int)
    requires
        1 <= n <= m.len(),
        parse_prefix(m, n) is Err,
    ensures
        parse_prefix(m, m.len() as int) == parse_prefix(m, n),
    decreases m.len() - n,
{
    if n < m.len() {
        lemma_parse_prefix_err(m, n + 1);
    }
}

} // verus!
