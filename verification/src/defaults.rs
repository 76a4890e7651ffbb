//! Default frontmatter: glob-scoped defaults (a glob → values to fill in a
//! matching doc's frontmatter) and per-collection defaults (a collection name
//! → values to fill in its members). A doc's own frontmatter always wins;
//! among defaults, later entries win.

use vstd::prelude::*;
use crate::doc::{merge_defaults, uplift_fits, with_data, Doc};
use crate::doc_index::{strs, DocIndex};
use crate::query::{glob_hits, glob_is_valid, glob_matches, glob_ok};
use crate::sorted::{get, keys_sorted, lookup};
use crate::text::str_eq;
use crate::yaml::{
    as_str, lemma_yvm, map_eq, map_insert, mapping_clone, str_of, yaml_clone, ymap_insert, yv, yvm, Mapping, Yaml,
    YamlV,
};

verus! {

broadcast use vstd::std_specs::vec::group_vec_axioms;

/// Glob-scoped default frontmatter, in config order.
pub struct Defaults {
    /// `(glob, default frontmatter)`; later entries win.
    pub rules: Vec<(String, Mapping)>,
}

/// Why a `defaults:` mapping was rejected.
#[derive(Debug, Clone, PartialEq, Eq)]
pub enum DefaultsError {
    KeyNotString,
    InvalidGlob(String),
    ValueNotMapping(String),
}

/// `entries` inserted into `m` one by one (later ones win).
pub open spec fn insert_all(m: Seq<(YamlV, YamlV)>, entries: Seq<(YamlV, YamlV)>) -> Seq<(YamlV, YamlV)>
    decreases entries.len(),
{
    if entries.len() == 0 {
        m
    } else {
        let acc = insert_all(m, entries.drop_last());
        ymap_insert(acc, entries.last().0, entries.last().1)
    }
}

/// The rules as plain values.
pub open spec fn rules_view(r: Seq<(String, Mapping)>) -> Seq<(Seq<char>, Seq<(YamlV, YamlV)>)> {
    r.map_values(|e: (String, Mapping)| (e.0@, yvm(e.1@)))
}

/// The defaults of every rule whose glob matches `id`, combined in order.
pub open spec fn combine(rules: Seq<(Seq<char>, Seq<(YamlV, YamlV)>)>, id: Seq<char>) -> Seq<(YamlV, YamlV)>
    decreases rules.len(),
{
    if rules.len() == 0 {
        Seq::empty()
    } else {
        let acc = combine(rules.drop_last(), id);
        if glob_hits(rules.last().0, id) {
            insert_all(acc, rules.last().1)
        } else {
            acc
        }
    }
}

/// The first entry of a `defaults:` mapping that is rejected, if any.
pub open spec fn first_bad(m: Seq<(Yaml, Yaml)>, i: int) -> Option<int>
    decreases m.len() - i,
{
    if i < 0 || i >= m.len() {
        None
    } else if !(str_of(m[i].0) matches Some(p) && glob_ok(p) && m[i].1 is Dict) {
        Some(i)
    } else {
        first_bad(m, i + 1)
    }
}

/// Insert every entry of `src` into `m`, copying.
pub fn insert_entries(m: &mut Mapping, src: &Mapping)
    ensures
        yvm(final(m)@) == insert_all(yvm(old(m)@), yvm(src@)),
{
    let ghost sv = yvm(src@);
    proof {
        lemma_yvm(src@);
        assert(sv.take(0) =~= Seq::<(YamlV, YamlV)>::empty());
    }
    let mut i: usize = 0;
    while i < src.len()
        invariant
            i <= src@.len(),
            sv == yvm(src@),
            sv.len() == src@.len(),
            forall|j: int| 0 <= j < src@.len() ==> #[trigger] sv[j] == (yv(src@[j].0), yv(src@[j].1)),
            yvm(m@) == insert_all(yvm(old(m)@), sv.take(i as int)),
        decreases src.len() - i,
    {
        proof {
            assert(sv.take(i + 1).drop_last() =~= sv.take(i as int));
            assert(sv.take(i + 1).last() == sv[i as int]);
        }
        let k = yaml_clone(&src[i].0);
        let v = yaml_clone(&src[i].1);
        map_insert(m, k, v);
        i += 1;
    }
    proof { assert(sv.take(src@.len() as int) =~= sv); }
}

/// Fill the keys `data` lacks from `combined`, in order. Returns whether any
/// key was added.
pub fn fill_missing(data: &mut Mapping, combined: &Mapping) -> (changed: bool)
    ensures
        yvm(final(data)@) == merge_defaults(yvm(old(data)@), yvm(combined@)),
        changed == (final(data)@.len() != old(data)@.len()),
{
    let ghost d0 = yvm(data@);
    let ghost cv = yvm(combined@);
    proof {
        lemma_yvm(combined@);
        lemma_yvm(data@);
        assert(cv.take(0) =~= Seq::<(YamlV, YamlV)>::empty());
    }
    let mut changed = false;
    let mut i: usize = 0;
    while i < combined.len()
        invariant
            i <= combined@.len(),
            cv == yvm(combined@),
            cv.len() == combined@.len(),
            forall|j: int| 0 <= j < combined@.len() ==> #[trigger] cv[j] == (yv(combined@[j].0), yv(combined@[j].1)),
            yvm(data@) == merge_defaults(d0, cv.take(i as int)),
            data@.len() >= old(data)@.len(),
            changed == (data@.len() != old(data)@.len()),
        decreases combined.len() - i,
    {
        proof {
            assert(cv.take(i + 1).drop_last() =~= cv.take(i as int));
            assert(cv.take(i + 1).last() == cv[i as int]);
        }
        if !crate::doc::contains_ykey(data, &combined[i].0) {
            let ghost before = data@;
            let k = yaml_clone(&combined[i].0);
            let v = yaml_clone(&combined[i].1);
            data.push((k, v));
            proof {
                lemma_yvm(before);
                lemma_yvm(data@);
                assert(yvm(data@) =~= yvm(before).push(cv[i as int]));
            }
            changed = true;
        }
        i += 1;
    }
    proof { assert(cv.take(combined@.len() as int) =~= cv); }
    changed
}

impl Defaults {
    /// No rules.
    pub fn empty() -> (r: Defaults)
        ensures
            r.rules@.len() == 0,
    {
        Defaults { rules: Vec::new() }
    }

    /// Parse a `defaults:` mapping: each key a glob (`*` does not cross `/`),
    /// each value a mapping of default frontmatter.
    pub fn from_yaml_mapping(m: &Mapping) -> (r: Result<Defaults, DefaultsError>)
        ensures
            r is Ok <==> first_bad(m@, 0) is None,
            r matches Ok(d) ==> d.rules@.len() == m@.len() && forall|i: int| 0 <= i < m@.len() ==> (
            str_of(m@[i].0) == Some((#[trigger] d.rules@[i]).0@) && (m@[i].1 matches Yaml::Dict(v) && map_eq(
                d.rules@[i].1@,
                v@,
            ))),
            r matches Err(e) ==> first_bad(m@, 0) matches Some(i) && match e {
                DefaultsError::KeyNotString => str_of(m@[i].0) is None,
                DefaultsError::InvalidGlob(p) => str_of(m@[i].0) == Some(p@) && !glob_ok(p@),
                DefaultsError::ValueNotMapping(p) => str_of(m@[i].0) == Some(p@) && glob_ok(p@) && !(m@[i].1 is Dict),
            },
    {
        let mut rules: Vec<(String, Mapping)> = Vec::new();
        let mut i: usize = 0;
        while i < m.len()
            invariant
                i <= m@.len(),
                first_bad(m@, 0) == first_bad(m@, i as int),
                rules@.len() == i,
                forall|j: int| 0 <= j < i ==> (str_of(m@[j].0) == Some((#[trigger] rules@[j]).0@) && (m@[j].1 matches Yaml::Dict(
                    v,
                ) && map_eq(rules@[j].1@, v@))),
            decreases m.len() - i,
        {
            let pat = match as_str(&m[i].0) {
                Some(p) => p,
                None => return Err(DefaultsError::KeyNotString),
            };
            if !glob_is_valid(pat) {
                return Err(DefaultsError::InvalidGlob(String::from_str(pat)));
            }
            let map = match &m[i].1 {
                Yaml::Dict(map) => map,
                _ => return Err(DefaultsError::ValueNotMapping(String::from_str(pat))),
            };
            rules.push((String::from_str(pat), mapping_clone(map)));
            i += 1;
        }
        Ok(Defaults { rules })
    }

    /// Fill keys absent from `data` from every rule whose glob matches
    /// `id_path`: later matching rules win among defaults, `data` always wins.
    /// Returns whether any default was applied.
    pub fn apply(&self, id_path: &str, data: &mut Mapping) -> (changed: bool)
        ensures
            yvm(final(data)@) == merge_defaults(yvm(old(data)@), combine(rules_view(self.rules@), id_path@)),
            changed == (final(data)@.len() != old(data)@.len()),
    {
        let ghost rv = rules_view(self.rules@);
        let mut combined: Mapping = Vec::new();
        let mut i: usize = 0;
        proof {
            assert(rv.take(0) =~= Seq::<(Seq<char>, Seq<(YamlV, YamlV)>)>::empty());
            lemma_yvm(combined@);
        }
        while i < self.rules.len()
            invariant
                i <= self.rules@.len(),
                rv == rules_view(self.rules@),
                yvm(combined@) == combine(rv.take(i as int), id_path@),
            decreases self.rules.len() - i,
        {
            proof {
                assert(rv.take(i + 1).drop_last() =~= rv.take(i as int));
                assert(rv.take(i + 1).last() == rv[i as int]);
            }
            if glob_matches(self.rules[i].0.as_str(), id_path) {
                insert_entries(&mut combined, &self.rules[i].1);
            }
            i += 1;
        }
        proof { assert(rv.take(self.rules@.len() as int) =~= rv); }
        fill_missing(data, &combined)
    }
}

// ---------------------------------------------------------------------------
// Per-collection defaults
// ---------------------------------------------------------------------------

/// `id` is a member of collection `name`.
pub open spec fn in_collection(colls: Seq<(String, Vec<String>)>, name: Seq<char>, id: Seq<char>) -> bool {
    match lookup(colls, name) {
        Some(ids) => strs(ids@).contains(id),
        None => false,
    }
}

/// The defaults of every collection `id` belongs to, combined in config
/// order (a later entry wins on overlap).
pub open spec fn collection_combine(defs: Seq<(Seq<char>, Seq<(YamlV, YamlV)>)>, colls: Seq<(String, Vec<String>)>, id: Seq<char>) -> Seq<(YamlV, YamlV)>
    decreases defs.len(),
{
    if defs.len() == 0 {
        Seq::empty()
    } else {
        let acc = collection_combine(defs.drop_last(), colls, id);
        if in_collection(colls, defs.last().0, id) {
            insert_all(acc, defs.last().1)
        } else {
            acc
        }
    }
}

/// Some defaults entry names a collection `id` belongs to.
pub open spec fn covered(defs: Seq<(Seq<char>, Seq<(YamlV, YamlV)>)>, colls: Seq<(String, Vec<String>)>, id: Seq<char>) -> bool {
    exists|i: int| 0 <= i < defs.len() && in_collection(colls, (#[trigger] defs[i]).0, id)
}

/// Is `id` among `ids`?
fn lists(ids: &Vec<String>, id: &str) -> (r: bool)
    ensures
        r == strs(ids@).contains(id@),
{
    let mut i: usize = 0;
    while i < ids.len()
        invariant
            i <= ids@.len(),
            forall|k: int| 0 <= k < i ==> (#[trigger] ids@[k])@ != id@,
        decreases ids.len() - i,
    {
        if str_eq(ids[i].as_str(), id) {
            proof { assert(strs(ids@)[i as int] == id@); }
            return true;
        }
        i += 1;
    }
    proof {
        if strs(ids@).contains(id@) {
            let k = choose|k: int| 0 <= k < strs(ids@).len() && strs(ids@)[k] == id@;
            assert(ids@[k]@ == id@);
        }
    }
    false
}

impl DocIndex {
    /// Fill each collection's members with the default frontmatter declared
    /// for that collection (a member's own frontmatter wins; later entries
    /// win among defaults), then re-derive the members' fields. Docs in no
    /// such collection are untouched.
    pub fn apply_collection_defaults(&mut self, defaults: &Vec<(String, Mapping)>, taxonomies: &Vec<String>)
        requires
            old(self).wf(),
        ensures
            final(self).wf(),
            final(self).collections == old(self).collections,
            final(self).taxonomies == old(self).taxonomies,
            final(self).backlinks == old(self).backlinks,
            final(self).docs@.len() == old(self).docs@.len(),
            forall|p: int| 0 <= p < old(self).docs@.len() ==> {
                let d = #[trigger] old(self).docs@[p].1;
                let n = final(self).docs@[p].1;
                &&& final(self).docs@[p].0 == old(self).docs@[p].0
                &&& if covered(rules_view(defaults@), old(self).collections@, d.id_path@) {
                    &&& yvm(n.data@) == merge_defaults(
                        yvm(d.data@),
                        collection_combine(rules_view(defaults@), old(self).collections@, d.id_path@),
                    )
                    &&& uplift_fits(n, with_data(d, n.data), taxonomies@)
                } else {
                    n == d
                }
            },
    {
        let ghost dv = rules_view(defaults@);
        let ghost start = self.docs@;
        let mut p: usize = 0;
        while p < self.docs.len()
            invariant
                self.wf(),
                dv == rules_view(defaults@),
                self.collections == old(self).collections,
                self.taxonomies == old(self).taxonomies,
                self.backlinks == old(self).backlinks,
                start == old(self).docs@,
                p <= self.docs@.len(),
                self.docs@.len() == start.len(),
                forall|q: int| p <= q < start.len() ==> #[trigger] self.docs@[q] == start[q],
                forall|q: int| 0 <= q < p ==> {
                    let d = #[trigger] start[q].1;
                    let n = self.docs@[q].1;
                    &&& self.docs@[q].0 == start[q].0
                    &&& if covered(dv, old(self).collections@, d.id_path@) {
                        &&& yvm(n.data@) == merge_defaults(yvm(d.data@), collection_combine(dv, old(self).collections@, d.id_path@))
                        &&& uplift_fits(n, with_data(d, n.data), taxonomies@)
                    } else {
                        n == d
                    }
                },
            decreases start.len() - p,
        {
            let ghost d = start[p as int].1;
            let mut combined: Mapping = Vec::new();
            let mut member = false;
            let mut k: usize = 0;
            proof {
                assert(dv.take(0) =~= Seq::<(Seq<char>, Seq<(YamlV, YamlV)>)>::empty());
                lemma_yvm(combined@);
            }
            while k < defaults.len()
                invariant
                    self.wf(),
                    p < self.docs@.len(),
                    self.docs@[p as int] == start[p as int],
                    d == start[p as int].1,
                    self.collections == old(self).collections,
                    dv == rules_view(defaults@),
                    k <= defaults@.len(),
                    yvm(combined@) == collection_combine(dv.take(k as int), old(self).collections@, d.id_path@),
                    member == exists|i: int| 0 <= i < k && in_collection(old(self).collections@, (#[trigger] dv[i]).0, d.id_path@),
                decreases defaults.len() - k,
            {
                proof {
                    assert(dv.take(k + 1).drop_last() =~= dv.take(k as int));
                    assert(dv.take(k + 1).last() == dv[k as int]);
                    assert(dv[k as int] == (defaults@[k as int].0@, yvm(defaults@[k as int].1@)));
                }
                let inside = match get(&self.collections, defaults[k].0.as_str()) {
                    Some(ids) => lists(ids, self.docs[p].1.id_path.as_str()),
                    None => false,
                };
                if inside {
                    insert_entries(&mut combined, &defaults[k].1);
                    member = true;
                }
                k += 1;
            }
            proof {
                assert(dv.take(defaults@.len() as int) =~= dv);
                assert(member == covered(dv, old(self).collections@, d.id_path@));
            }
            if member {
                let ghost before = self.docs@;
                let mut entry = self.docs.remove(p);
                let ghost key = entry.0;
                entry.1.apply_defaults(&combined);
                let ghost mid = entry.1;
                entry.1.uplift_frontmatter(taxonomies);
                proof {
                    assert(mid == with_data(d, mid.data));
                    assert(entry.1.data == mid.data);
                }
                let ghost ge = entry;
                self.docs.insert(p, entry);
                proof {
                    assert(self.docs@ =~= before.update(p as int, ge));
                    let e = self.docs@[p as int];
                    assert(e.0@ == e.1.id_path@);
                    assert forall|i: int| 0 <= i < self.docs@.len() implies (#[trigger] self.docs@[i]).0@ == self.docs@[i].1.id_path@
                        && keys_sorted(self.docs@[i].1.terms@) && (forall|j: int| 0 <= j < self.docs@[i].1.terms@.len() ==> keys_sorted(
                        (#[trigger] self.docs@[i].1.terms@[j]).1@)) by {
                        if i == p {
                            let t = e.1.terms@;
                            assert forall|j: int| 0 <= j < t.len() implies keys_sorted((#[trigger] t[j]).1@) by {
                                crate::sorted::lemma_lookup_at(t, j);
                                assert(crate::sorted::has_key(t, t[j].0@));
                            }
                        }
                    }
                    assert forall|i: int, j: int| 0 <= i < j < self.docs@.len() implies crate::text::path_lt(
                        #[trigger] self.docs@[i].0@,
                        #[trigger] self.docs@[j].0@,
                    ) by {
                        assert(self.docs@[i].0 == before[i].0);
                        assert(self.docs@[j].0 == before[j].0);
                    }
                }
            }
            p += 1;
        }
    }
}

} // verus!
