//! The in-memory doc store threaded through the build phases. Docs are kept
//! sorted by `id_path`, so every listing has a stable order; on top of the
//! store it caches collections (a query's result), taxonomies (term → docs)
//! and the inverted link graph (target → linking docs).

use vstd::prelude::*;
use crate::backlinks::Backlinks;
use crate::doc::Doc;
use crate::listing::{all_positions, eval_spec, evaluate_on};
use crate::order::{docs_of, sort_positions, sort_spec, Order};
use crate::query::{OrderKey, Query, SortDir};
use crate::sorted::{find_slot, get, has_key, keys_sorted, lemma_lookup_at, lookup, upsert};

verus! {

broadcast use vstd::std_specs::vec::group_vec_axioms;

/// The doc store and its cached listings.
pub struct DocIndex {
    /// `id_path` → doc, sorted by `id_path`.
    pub docs: Vec<(String, Doc)>,
    /// Collection name → member `id_path`s in query order.
    pub collections: Vec<(String, Vec<String>)>,
    /// Taxonomy name → (term slug → member `id_path`s).
    pub taxonomies: Vec<(String, Vec<(String, Vec<String>)>)>,
    /// Link target → `id_path`s of the docs linking to it.
    pub backlinks: Vec<(String, Vec<String>)>,
}

/// The `id_path`s at positions `ps` of the doc store.
pub open spec fn ids_at(docs: Seq<(String, Doc)>, ps: Seq<usize>) -> Seq<Seq<char>> {
    ps.map_values(|p: usize| docs[p as int].0@)
}

/// Views of a list of strings.
pub open spec fn strs(v: Seq<String>) -> Seq<Seq<char>> {
    v.map_values(|s: String| s@)
}

/// The docs stored under `ids`, in order, skipping ids with no doc.
pub open spec fn docs_under(docs: Seq<(String, Doc)>, ids: Seq<Seq<char>>) -> Seq<Doc>
    decreases ids.len(),
{
    if ids.len() == 0 {
        Seq::empty()
    } else {
        let rest = docs_under(docs, ids.drop_last());
        match lookup(docs, ids.last()) {
            Some(d) => rest.push(d),
            None => rest,
        }
    }
}

impl DocIndex {
    /// The store is sorted by `id_path`, each entry keyed by its doc's own
    /// `id_path`, its docs' terms sorted, and the caches sorted by name.
    pub open spec fn wf(&self) -> bool {
        &&& keys_sorted(self.docs@)
        &&& forall|i: int| 0 <= i < self.docs@.len() ==> (#[trigger] self.docs@[i]).0@ == self.docs@[i].1.id_path@
        &&& forall|i: int| 0 <= i < self.docs@.len() ==> keys_sorted((#[trigger] self.docs@[i]).1.terms@)
        &&& forall|i: int, j: int|
            0 <= i < self.docs@.len() && 0 <= j < self.docs@[i].1.terms@.len() ==> keys_sorted(
                (#[trigger] self.docs@[i].1.terms@[j]).1@,
            )
        &&& keys_sorted(self.collections@)
        &&& keys_sorted(self.taxonomies@)
        &&& forall|i: int| 0 <= i < self.taxonomies@.len() ==> keys_sorted((#[trigger] self.taxonomies@[i]).1@)
        &&& keys_sorted(self.backlinks@)
    }

    /// An empty store.
    pub fn new() -> (r: DocIndex)
        ensures
            r.wf(),
            r.docs@.len() == 0,
            r.collections@.len() == 0,
            r.taxonomies@.len() == 0,
            r.backlinks@.len() == 0,
    {
        DocIndex { docs: Vec::new(), collections: Vec::new(), taxonomies: Vec::new(), backlinks: Vec::new() }
    }

    /// Insert (or replace) a doc, keyed by its `id_path`. Its terms must be
    /// sorted, as uplifting leaves them.
    pub fn insert(&mut self, doc: Doc)
        requires
            old(self).wf(),
            keys_sorted(doc.terms@),
            forall|j: int| 0 <= j < doc.terms@.len() ==> keys_sorted((#[trigger] doc.terms@[j]).1@),
        ensures
            final(self).wf(),
            forall|k: Seq<char>| #[trigger] lookup(final(self).docs@, k) == if k == doc.id_path@ {
                Some(doc)
            } else {
                lookup(old(self).docs@, k)
            },
            final(self).collections == old(self).collections,
            final(self).taxonomies == old(self).taxonomies,
            final(self).backlinks == old(self).backlinks,
    {
        let ghost before = self.docs@;
        let id = doc.id_path.clone();
        let ghost gd = doc;
        upsert(&mut self.docs, id, doc);
        proof {
            assert forall|i: int| 0 <= i < self.docs@.len() implies (#[trigger] self.docs@[i]).0@ == self.docs@[i].1.id_path@
                && keys_sorted(self.docs@[i].1.terms@) && (forall|j: int| 0 <= j < self.docs@[i].1.terms@.len() ==> keys_sorted(
                (#[trigger] self.docs@[i].1.terms@[j]).1@)) by {
                let e = self.docs@[i];
                crate::sorted::lemma_lookup_at(self.docs@, i);
                if e.0@ == gd.id_path@ {
                    assert(lookup(self.docs@, e.0@) == Some(gd));
                } else {
                    assert(lookup(self.docs@, e.0@) == lookup(before, e.0@));
                    crate::sorted::lemma_lookup_some(before, e.0@);
                    let w = choose|w: int| 0 <= w < before.len() && (#[trigger] before[w]).0@ == e.0@ && lookup(before, e.0@) == Some(before[w].1);
                    assert(before[w].0@ == before[w].1.id_path@);
                }
            }
        }
    }

    /// The doc at `id_path`.
    pub fn doc(&self, id_path: &str) -> (r: Option<&Doc>)
        requires
            self.wf(),
        ensures
            match r {
                Some(d) => lookup(self.docs@, id_path@) == Some(*d),
                None => lookup(self.docs@, id_path@) is None,
            },
    {
        get(&self.docs, id_path)
    }

    /// The `output_path` of the doc at `id_path`.
    pub fn output_path(&self, id_path: &str) -> (r: Option<&String>)
        requires
            self.wf(),
        ensures
            match r {
                Some(p) => lookup(self.docs@, id_path@) matches Some(d) && d.output_path == *p,
                None => lookup(self.docs@, id_path@) is None,
            },
    {
        match get(&self.docs, id_path) {
            Some(d) => Some(&d.output_path),
            None => None,
        }
    }

    /// Evaluate `query` once over every doc and cache the matching
    /// `id_path`s, in query order, under `name`.
    pub fn define_collection(&mut self, name: &str, query: &Query)
        requires
            old(self).wf(),
        ensures
            final(self).wf(),
            final(self).docs == old(self).docs,
            final(self).taxonomies == old(self).taxonomies,
            final(self).backlinks == old(self).backlinks,
            forall|k: Seq<char>| #[trigger] lookup(final(self).collections@, k) == if k == name@ {
                lookup(final(self).collections@, name@)
            } else {
                lookup(old(self).collections@, k)
            },
            lookup(final(self).collections@, name@) matches Some(ids) && strs(ids@) == ids_at(
                old(self).docs@,
                eval_spec(query@, docs_of(old(self).docs@), Seq::new(old(self).docs@.len(), |i: int| i as usize)),
            ),
    {
        let all = all_positions(self.docs.len());
        proof {
            assert(all@ =~= Seq::new(self.docs@.len(), |i: int| i as usize));
        }
        let ps = evaluate_on(query, &self.docs, &all);
        let ids = self.ids_of(&ps);
        let ghost gids = ids;
        upsert(&mut self.collections, String::from_str(name), ids);
        proof {
            assert(lookup(self.collections@, name@) == Some(gids));
        }
    }

    /// The `id_path`s at positions `ps`.
    fn ids_of(&self, ps: &Vec<usize>) -> (r: Vec<String>)
        requires
            forall|i: int| 0 <= i < ps@.len() ==> #[trigger] ps@[i] < self.docs@.len(),
        ensures
            strs(r@) == ids_at(self.docs@, ps@),
    {
        let mut out: Vec<String> = Vec::new();
        let mut i: usize = 0;
        while i < ps.len()
            invariant
                i <= ps@.len(),
                forall|k: int| 0 <= k < ps@.len() ==> #[trigger] ps@[k] < self.docs@.len(),
                out@.len() == i,
                forall|k: int| 0 <= k < i ==> (#[trigger] out@[k])@ == self.docs@[ps@[k] as int].0@,
            decreases ps.len() - i,
        {
            out.push(self.docs[ps[i]].0.clone());
            i += 1;
        }
        proof { assert(strs(out@) =~= ids_at(self.docs@, ps@)); }
        out
    }

    /// The docs stored under `ids`, in order (ids without a doc are skipped).
    fn docs_for<'a>(&'a self, ids: &Vec<String>) -> (r: Vec<&'a Doc>)
        requires
            self.wf(),
        ensures
            r@.map_values(|d: &Doc| *d) == docs_under(self.docs@, strs(ids@)),
    {
        let mut out: Vec<&Doc> = Vec::new();
        let mut i: usize = 0;
        proof { assert(strs(ids@).take(0) =~= Seq::<Seq<char>>::empty()); }
        while i < ids.len()
            invariant
                self.wf(),
                i <= ids@.len(),
                out@.map_values(|d: &Doc| *d) == docs_under(self.docs@, strs(ids@).take(i as int)),
            decreases ids.len() - i,
        {
            proof {
                assert(strs(ids@).take(i + 1).drop_last() =~= strs(ids@).take(i as int));
                assert(strs(ids@).take(i + 1).last() == ids@[i as int]@);
            }
            let ghost before = out@;
            match get(&self.docs, ids[i].as_str()) {
                Some(d) => {
                    out.push(d);
                    proof { assert(out@.map_values(|d: &Doc| *d) =~= before.map_values(|d: &Doc| *d).push(*d)); }
                },
                None => {},
            }
            i += 1;
        }
        proof { assert(strs(ids@).take(ids.len() as int) =~= strs(ids@)); }
        out
    }

    /// Docs of the named collection, in cached order; an unknown name yields
    /// none.
    pub fn get_collection<'a>(&'a self, name: &str) -> (r: Vec<&'a Doc>)
        requires
            self.wf(),
        ensures
            r@.map_values(|d: &Doc| *d) == match lookup(self.collections@, name@) {
                Some(ids) => docs_under(self.docs@, strs(ids@)),
                None => Seq::empty(),
            },
    {
        match get(&self.collections, name) {
            Some(ids) => self.docs_for(ids),
            None => {
                let v: Vec<&Doc> = Vec::new();
                proof { assert(v@.map_values(|d: &Doc| *d) =~= Seq::<Doc>::empty()); }
                v
            },
        }
    }
}

// ---------------------------------------------------------------------------
// Taxonomies
// ---------------------------------------------------------------------------

/// The bucket of taxonomy `name` in `d` (empty when absent).
pub open spec fn bucket_in(d: Doc, name: Seq<char>) -> Seq<(String, String)> {
    match lookup(d.terms@, name) {
        Some(b) => b@,
        None => Seq::empty(),
    }
}

/// Positions below `k` whose doc carries term `t` in taxonomy `name`,
/// ascending.
pub open spec fn members(ds: Seq<Doc>, name: Seq<char>, t: Seq<char>, k: int) -> Seq<usize>
    decreases k,
{
    if k <= 0 {
        Seq::empty()
    } else {
        let m = members(ds, name, t, k - 1);
        if has_key(bucket_in(ds[k - 1], name), t) {
            m.push((k - 1) as usize)
        } else {
            m
        }
    }
}

/// A term's docs are listed newest first, ties by ascending `id_path`.
pub open spec fn tax_order() -> Order {
    Order { key: OrderKey::Date, dir: SortDir::Desc, tiebreak: true }
}

/// `tx` is taxonomy `name` of the store `docs`: one entry per term some doc
/// carries, listing those docs in taxonomy order.
pub open spec fn taxonomy_fits(tx: Seq<(String, Vec<String>)>, docs: Seq<(String, Doc)>, name: Seq<char>) -> bool {
    &&& keys_sorted(tx)
    &&& forall|t: Seq<char>| #[trigger] has_key(tx, t) <==> members(docs_of(docs), name, t, docs.len() as int).len() > 0
    &&& forall|t: Seq<char>| #[trigger] has_key(tx, t) ==> (lookup(tx, t) matches Some(ids) && strs(ids@) == ids_at(
        docs,
        sort_spec(docs_of(docs), tax_order(), members(docs_of(docs), name, t, docs.len() as int)),
    ))
}

/// Taxonomy `name` is defined in `taxes` as the store `docs` gives it.
pub open spec fn taxonomy_defined(taxes: Seq<(String, Vec<(String, Vec<String>)>)>, docs: Seq<(String, Doc)>, name: Seq<char>) -> bool {
    lookup(taxes, name) matches Some(tx) && taxonomy_fits(tx@, docs, name)
}

/// `v` with `x` appended, as a new vector.
fn pushed(v: &Vec<usize>, x: usize) -> (r: Vec<usize>)
    ensures
        r@ == v@.push(x),
{
    let mut out: Vec<usize> = Vec::new();
    let mut i: usize = 0;
    while i < v.len()
        invariant
            i <= v@.len(),
            out@ == v@.take(i as int),
        decreases v.len() - i,
    {
        out.push(v[i]);
        proof { assert(v@.take(i + 1) =~= v@.take(i as int).push(v@[i as int])); }
        i += 1;
    }
    proof { assert(v@.take(v@.len() as int) =~= v@); }
    out.push(x);
    out
}

/// The expected membership lists after the first `j` terms of doc `i`'s
/// bucket `b` are filed.
pub open spec fn partial_members(ds: Seq<Doc>, name: Seq<char>, t: Seq<char>, i: int, b: Seq<(String, String)>, j: int) -> Seq<usize> {
    let m = members(ds, name, t, i);
    if has_key(b.take(j), t) {
        m.push(i as usize)
    } else {
        m
    }
}

/// `o` holds the membership list `m` (absent when `m` is empty).
pub open spec fn list_is(o: Option<Vec<usize>>, m: Seq<usize>) -> bool {
    match o {
        Some(v) => m.len() > 0 && v@ == m,
        None => m.len() == 0,
    }
}

proof fn lemma_members_bound(ds: Seq<Doc>, name: Seq<char>, t: Seq<char>, k: int)
    requires
        k <= usize::MAX,
    ensures
        forall|j: int| 0 <= j < members(ds, name, t, k).len() ==> #[trigger] members(ds, name, t, k)[j] < k,
    decreases k,
{
    if k > 0 {
        lemma_members_bound(ds, name, t, k - 1);
        let m = members(ds, name, t, k - 1);
        assert forall|j: int| 0 <= j < members(ds, name, t, k).len() implies #[trigger] members(ds, name, t, k)[j] < k by {
            if j < m.len() {
                assert(members(ds, name, t, k)[j] == m[j]);
            }
        }
    }
}

impl DocIndex {
    /// File position `i` under term `slug`.
    fn add_member(tx: &mut Vec<(String, Vec<usize>)>, slug: &String, i: usize)
        requires
            keys_sorted(old(tx)@),
        ensures
            keys_sorted(final(tx)@),
            forall|t: Seq<char>| t != slug@ ==> #[trigger] lookup(final(tx)@, t) == lookup(old(tx)@, t),
            lookup(final(tx)@, slug@) matches Some(v) && v@ == match lookup(old(tx)@, slug@) {
                Some(w) => w@.push(i),
                None => seq![i],
            },
    {
        let nv = match get(tx, slug.as_str()) {
            Some(w) => pushed(w, i),
            None => {
                let mut v: Vec<usize> = Vec::new();
                v.push(i);
                v
            },
        };
        let ghost gnv = nv;
        upsert(tx, slug.clone(), nv);
        proof {
            assert(lookup(tx@, slug@) == Some(gnv));
        }
    }

    /// Order each term's positions by taxonomy order and name them by
    /// `id_path`.
    fn order_terms(&self, tx: &Vec<(String, Vec<usize>)>) -> (r: Vec<(String, Vec<String>)>)
        requires
            forall|k: int, j: int| 0 <= k < tx@.len() && 0 <= j < tx@[k].1@.len() ==> #[trigger] tx@[k].1@[j] < self.docs@.len(),
        ensures
            r@.len() == tx@.len(),
            forall|k: int| 0 <= k < tx@.len() ==> (#[trigger] r@[k]).0@ == tx@[k].0@ && strs(r@[k].1@) == ids_at(
                self.docs@,
                sort_spec(docs_of(self.docs@), tax_order(), tx@[k].1@),
            ),
    {
        let mut out: Vec<(String, Vec<String>)> = Vec::new();
        let mut k: usize = 0;
        while k < tx.len()
            invariant
                k <= tx@.len(),
                forall|a: int, j: int| 0 <= a < tx@.len() && 0 <= j < tx@[a].1@.len() ==> #[trigger] tx@[a].1@[j] < self.docs@.len(),
                out@.len() == k,
                forall|a: int| 0 <= a < k ==> (#[trigger] out@[a]).0@ == tx@[a].0@ && strs(out@[a].1@) == ids_at(
                    self.docs@,
                    sort_spec(docs_of(self.docs@), tax_order(), tx@[a].1@),
                ),
            decreases tx.len() - k,
        {
            let o = Order { key: OrderKey::Date, dir: SortDir::Desc, tiebreak: true };
            let ps = &tx[k].1;
            proof {
                assert forall|j: int| 0 <= j < ps@.len() implies #[trigger] ps@[j] < self.docs@.len() by {
                    assert(tx@[k as int].1@[j] < self.docs@.len());
                }
            }
            let sorted = sort_positions(&self.docs, o, ps);
            let ids = self.ids_of(&sorted);
            out.push((tx[k].0.clone(), ids));
            k += 1;
        }
        out
    }

    /// Build taxonomy `name`: file each doc under every term of its `name`
    /// bucket, then order each term's docs newest first (ties by `id_path`).
    pub fn define_taxonomy(&mut self, name: &str)
        requires
            old(self).wf(),
        ensures
            final(self).wf(),
            final(self).docs == old(self).docs,
            final(self).collections == old(self).collections,
            final(self).backlinks == old(self).backlinks,
            forall|k: Seq<char>| k != name@ ==> #[trigger] lookup(final(self).taxonomies@, k) == lookup(old(self).taxonomies@, k),
            lookup(final(self).taxonomies@, name@) matches Some(tx) && taxonomy_fits(tx@, old(self).docs@, name@),
    {
        let ghost ds = docs_of(self.docs@);
        let n = self.docs.len();
        let mut tx: Vec<(String, Vec<usize>)> = Vec::new();
        let mut i: usize = 0;
        while i < n
            invariant
                self.wf(),
                n == self.docs@.len(),
                ds == docs_of(self.docs@),
                i <= n,
                keys_sorted(tx@),
                forall|t: Seq<char>| #[trigger] list_is(lookup(tx@, t), members(ds, name@, t, i as int)),
            decreases n - i,
        {
            proof { assert(ds[i as int] == self.docs@[i as int].1); }
            let doc = &self.docs[i].1;
            match get(&doc.terms, name) {
                Some(b) => {
                    proof {
                        crate::sorted::lemma_lookup_some(doc.terms@, name@);
                        let w = choose|w: int| 0 <= w < doc.terms@.len() && (#[trigger] doc.terms@[w]).0@ == name@
                            && lookup(doc.terms@, name@) == Some(doc.terms@[w].1);
                        assert(keys_sorted(doc.terms@[w].1@));
                    }
                    let mut j: usize = 0;
                    while j < b.len()
                        invariant
                            self.wf(),
                            n == self.docs@.len(),
                            ds == docs_of(self.docs@),
                            i < n,
                            j <= b@.len(),
                            bucket_in(ds[i as int], name@) == b@,
                            keys_sorted(b@),
                            keys_sorted(tx@),
                            forall|t: Seq<char>| #[trigger] list_is(lookup(tx@, t), partial_members(ds, name@, t, i as int, b@, j as int)),
                        decreases b.len() - j,
                    {
                        let slug = &b[j].0;
                        let ghost before = tx@;
                        Self::add_member(&mut tx, slug, i);
                        proof {
                            assert forall|t: Seq<char>| #[trigger] list_is(lookup(tx@, t), partial_members(ds, name@, t, i as int, b@, j + 1)) by {
                                let pj = partial_members(ds, name@, t, i as int, b@, j as int);
                                assert(list_is(lookup(before, t), pj));
                                assert(has_key(b@.take(j + 1), t) <==> (has_key(b@.take(j as int), t) || t == b@[j as int].0@)) by {
                                    if has_key(b@.take(j + 1), t) {
                                        let w = choose|w: int| 0 <= w < j + 1 && (#[trigger] b@.take(j + 1)[w]).0@ == t;
                                        if w < j {
                                            assert(b@.take(j as int)[w] == b@[w]);
                                        }
                                    }
                                    if has_key(b@.take(j as int), t) {
                                        let w = choose|w: int| 0 <= w < j && (#[trigger] b@.take(j as int)[w]).0@ == t;
                                        assert(b@.take(j + 1)[w] == b@[w]);
                                    }
                                    if t == b@[j as int].0@ {
                                        assert(b@.take(j + 1)[j as int] == b@[j as int]);
                                    }
                                }
                                if t == slug@ {
                                    assert(!has_key(b@.take(j as int), t)) by {
                                        if has_key(b@.take(j as int), t) {
                                            let w = choose|w: int| 0 <= w < j && (#[trigger] b@.take(j as int)[w]).0@ == t;
                                            assert(b@.take(j as int)[w] == b@[w]);
                                            assert(crate::text::path_lt(b@[w].0@, b@[j as int].0@));
                                            crate::text::lemma_path_lt_irrefl(t);
                                        }
                                    }
                                    assert(pj == members(ds, name@, t, i as int));
                                    let m = members(ds, name@, t, i as int);
                                    assert(partial_members(ds, name@, t, i as int, b@, j + 1) == m.push(i));
                                    if m.len() == 0 {
                                        assert(m.push(i) =~= seq![i]);
                                    }
                                } else {
                                    assert(lookup(tx@, t) == lookup(before, t));
                                }
                            }
                        }
                        j += 1;
                    }
                    proof {
                        assert(b@.take(b@.len() as int) =~= b@);
                        assert forall|t: Seq<char>| #[trigger] list_is(lookup(tx@, t), members(ds, name@, t, i + 1)) by {
                            assert(partial_members(ds, name@, t, i as int, b@, b@.len() as int) == members(ds, name@, t, i + 1));
                        }
                    }
                },
                None => {
                    proof {
                        assert(bucket_in(ds[i as int], name@) =~= Seq::<(String, String)>::empty());
                        assert forall|t: Seq<char>| #[trigger] list_is(lookup(tx@, t), members(ds, name@, t, i + 1)) by {
                            assert(members(ds, name@, t, i + 1) == members(ds, name@, t, i as int));
                        }
                    }
                },
            }
            i += 1;
        }
        proof {
            assert forall|k: int, j: int| 0 <= k < tx@.len() && 0 <= j < tx@[k].1@.len() implies #[trigger] tx@[k].1@[j] < self.docs@.len() by {
                let t = tx@[k].0@;
                lemma_lookup_at(tx@, k);
                assert(list_is(lookup(tx@, t), members(ds, name@, t, n as int)));
                lemma_members_bound(ds, name@, t, n as int);
            }
        }
        let res = self.order_terms(&tx);
        proof {
            assert forall|a: int, b: int| 0 <= a < b < res@.len() implies crate::text::path_lt(#[trigger] res@[a].0@, #[trigger] res@[b].0@) by {
                assert(res@[a].0@ == tx@[a].0@ && res@[b].0@ == tx@[b].0@);
            }
            assert forall|t: Seq<char>| #[trigger] has_key(res@, t) <==> members(ds, name@, t, n as int).len() > 0 by {
                assert(list_is(lookup(tx@, t), members(ds, name@, t, n as int)));
                if has_key(res@, t) {
                    let w = choose|w: int| 0 <= w < res@.len() && (#[trigger] res@[w]).0@ == t;
                    assert(tx@[w].0@ == t);
                    assert(has_key(tx@, t));
                }
                if has_key(tx@, t) {
                    let w = choose|w: int| 0 <= w < tx@.len() && (#[trigger] tx@[w]).0@ == t;
                    assert(res@[w].0@ == t);
                }
            }
            assert forall|t: Seq<char>| #[trigger] has_key(res@, t) implies (lookup(res@, t) matches Some(ids) && strs(ids@) == ids_at(
                self.docs@,
                sort_spec(ds, tax_order(), members(ds, name@, t, n as int)),
            )) by {
                let w = choose|w: int| 0 <= w < res@.len() && (#[trigger] res@[w]).0@ == t;
                lemma_lookup_at(res@, w);
                lemma_lookup_at(tx@, w);
                assert(tx@[w].0@ == t);
                assert(list_is(lookup(tx@, t), members(ds, name@, t, n as int)));
            }
        }
        let ghost gres = res;
        upsert(&mut self.taxonomies, String::from_str(name), res);
        proof {
            assert(lookup(self.taxonomies@, name@) == Some(gres));
            assert forall|i: int| 0 <= i < self.taxonomies@.len() implies keys_sorted((#[trigger] self.taxonomies@[i]).1@) by {
                let e = self.taxonomies@[i];
                lemma_lookup_at(self.taxonomies@, i);
                if e.0@ != name@ {
                    crate::sorted::lemma_lookup_some(old(self).taxonomies@, e.0@);
                }
            }
        }
    }
}

impl DocIndex {
    /// Build one taxonomy per name in `names`.
    pub fn define_taxonomies(&mut self, names: &Vec<String>)
        requires
            old(self).wf(),
        ensures
            final(self).wf(),
            final(self).docs == old(self).docs,
            final(self).collections == old(self).collections,
            final(self).backlinks == old(self).backlinks,
            forall|i: int| 0 <= i < names@.len() ==> taxonomy_defined(final(self).taxonomies@, old(self).docs@, (#[trigger] names@[i])@),
            forall|k: Seq<char>| (forall|i: int| 0 <= i < names@.len() ==> (#[trigger] names@[i])@ != k) ==> #[trigger] lookup(
                final(self).taxonomies@,
                k,
            ) == lookup(old(self).taxonomies@, k),
    {
        let mut i: usize = 0;
        while i < names.len()
            invariant
                self.wf(),
                i <= names@.len(),
                self.docs == old(self).docs,
                self.collections == old(self).collections,
                self.backlinks == old(self).backlinks,
                forall|k: int| 0 <= k < i ==> taxonomy_defined(self.taxonomies@, old(self).docs@, (#[trigger] names@[k])@),
                forall|k: Seq<char>| (forall|m: int| 0 <= m < i ==> (#[trigger] names@[m])@ != k) ==> #[trigger] lookup(
                    self.taxonomies@,
                    k,
                ) == lookup(old(self).taxonomies@, k),
            decreases names.len() - i,
        {
            let ghost before = self.taxonomies@;
            self.define_taxonomy(names[i].as_str());
            proof {
                assert forall|k: int| 0 <= k < i + 1 implies taxonomy_defined(self.taxonomies@, old(self).docs@, (#[trigger] names@[k])@) by {
                    if k < i && names@[k]@ != names@[i as int]@ {
                        assert(lookup(self.taxonomies@, names@[k]@) == lookup(before, names@[k]@));
                    }
                }
                assert forall|k: Seq<char>| (forall|m: int| 0 <= m < i + 1 ==> (#[trigger] names@[m])@ != k) implies #[trigger] lookup(
                    self.taxonomies@,
                    k,
                ) == lookup(old(self).taxonomies@, k) by {
                    assert(names@[i as int]@ != k);
                    assert(lookup(self.taxonomies@, k) == lookup(before, k));
                }
            }
            i += 1;
        }
    }

    /// The named taxonomy's `term → id_path`s, or `None` if undefined.
    pub fn get_taxonomy(&self, name: &str) -> (r: Option<&Vec<(String, Vec<String>)>>)
        requires
            self.wf(),
        ensures
            match r {
                Some(tx) => lookup(self.taxonomies@, name@) == Some(*tx),
                None => lookup(self.taxonomies@, name@) is None,
            },
    {
        get(&self.taxonomies, name)
    }
}

// ---------------------------------------------------------------------------
// Backlinks
// ---------------------------------------------------------------------------

/// Occurrences of `t` among `links`.
pub open spec fn occ(links: Seq<String>, t: Seq<char>) -> nat
    decreases links.len(),
{
    if links.len() == 0 {
        0
    } else {
        occ(links.drop_last(), t) + if links.last()@ == t { 1nat } else { 0nat }
    }
}

/// `n` copies of `id`.
pub open spec fn copies(id: Seq<char>, n: nat) -> Seq<Seq<char>> {
    Seq::new(n, |_i: int| id)
}

/// The `id_path`s of the docs among the first `k` that link to `t`, in store
/// order, once per link.
pub open spec fn linkers(docs: Seq<(String, Doc)>, t: Seq<char>, k: int) -> Seq<Seq<char>>
    decreases k,
{
    if k <= 0 {
        Seq::empty()
    } else {
        linkers(docs, t, k - 1) + copies(docs[k - 1].0@, occ(docs[k - 1].1.links@, t))
    }
}

/// `o` holds the id list `m` (absent when `m` is empty).
pub open spec fn ids_are(o: Option<Vec<String>>, m: Seq<Seq<char>>) -> bool {
    match o {
        Some(v) => m.len() > 0 && strs(v@) == m,
        None => m.len() == 0,
    }
}

/// `v` with a copy of `x` appended.
fn pushed_str(v: &Vec<String>, x: &String) -> (r: Vec<String>)
    ensures
        strs(r@) == strs(v@).push(x@),
{
    let mut out: Vec<String> = Vec::new();
    let mut i: usize = 0;
    while i < v.len()
        invariant
            i <= v@.len(),
            out@.len() == i,
            forall|k: int| 0 <= k < i ==> (#[trigger] out@[k])@ == v@[k]@,
        decreases v.len() - i,
    {
        out.push(v[i].clone());
        i += 1;
    }
    out.push(x.clone());
    proof { assert(strs(out@) =~= strs(v@).push(x@)); }
    out
}

impl DocIndex {
    /// File `id` as a linker of `target`.
    fn add_linker(bl: &mut Vec<(String, Vec<String>)>, target: &String, id: &String)
        requires
            keys_sorted(old(bl)@),
        ensures
            keys_sorted(final(bl)@),
            forall|t: Seq<char>| t != target@ ==> #[trigger] lookup(final(bl)@, t) == lookup(old(bl)@, t),
            lookup(final(bl)@, target@) matches Some(v) && strs(v@) == match lookup(old(bl)@, target@) {
                Some(w) => strs(w@).push(id@),
                None => seq![id@],
            },
    {
        let nv = match get(bl, target.as_str()) {
            Some(w) => pushed_str(w, id),
            None => {
                let mut v: Vec<String> = Vec::new();
                v.push(id.clone());
                proof { assert(strs(v@) =~= seq![id@]); }
                v
            },
        };
        let ghost gnv = nv;
        upsert(bl, target.clone(), nv);
        proof {
            assert(lookup(bl@, target@) == Some(gnv));
        }
    }

    /// Build the inverted link graph from every doc's `links`: each target's
    /// linkers come out in `id_path` order. Run after markup fills `links`.
    pub fn define_backlinks(&mut self)
        requires
            old(self).wf(),
        ensures
            final(self).wf(),
            final(self).docs == old(self).docs,
            final(self).collections == old(self).collections,
            final(self).taxonomies == old(self).taxonomies,
            forall|t: Seq<char>| #[trigger] ids_are(lookup(final(self).backlinks@, t), linkers(old(self).docs@, t, old(self).docs@.len() as int)),
    {
        let n = self.docs.len();
        let mut bl: Vec<(String, Vec<String>)> = Vec::new();
        let mut i: usize = 0;
        while i < n
            invariant
                self.wf(),
                self.docs == old(self).docs,
                self.collections == old(self).collections,
                self.taxonomies == old(self).taxonomies,
                n == self.docs@.len(),
                i <= n,
                keys_sorted(bl@),
                forall|t: Seq<char>| #[trigger] ids_are(lookup(bl@, t), linkers(self.docs@, t, i as int)),
            decreases n - i,
        {
            let links = &self.docs[i].1.links;
            let id = &self.docs[i].0;
            let mut j: usize = 0;
            proof { assert(links@.take(0) =~= Seq::<String>::empty()); }
            while j < links.len()
                invariant
                    self.wf(),
                    n == self.docs@.len(),
                    i < n,
                    j <= links@.len(),
                    *links == self.docs@[i as int].1.links,
                    *id == self.docs@[i as int].0,
                    keys_sorted(bl@),
                    forall|t: Seq<char>| #[trigger] ids_are(
                        lookup(bl@, t),
                        linkers(self.docs@, t, i as int) + copies(id@, occ(links@.take(j as int), t)),
                    ),
                decreases links.len() - j,
            {
                let ghost before = bl@;
                Self::add_linker(&mut bl, &links[j], id);
                proof {
                    assert(links@.take(j + 1).drop_last() =~= links@.take(j as int));
                    assert(links@.take(j + 1).last() == links@[j as int]);
                    assert forall|t: Seq<char>| #[trigger] ids_are(
                        lookup(bl@, t),
                        linkers(self.docs@, t, i as int) + copies(id@, occ(links@.take(j + 1), t)),
                    ) by {
                        let l = linkers(self.docs@, t, i as int);
                        let c0 = occ(links@.take(j as int), t);
                        assert(ids_are(lookup(before, t), l + copies(id@, c0)));
                        if t == links@[j as int]@ {
                            assert(l + copies(id@, c0 + 1) =~= (l + copies(id@, c0)).push(id@));
                            if (l + copies(id@, c0)).len() == 0 {
                                assert((l + copies(id@, c0)).push(id@) =~= seq![id@]);
                            }
                        } else {
                            assert(lookup(bl@, t) == lookup(before, t));
                        }
                    }
                }
                j += 1;
            }
            proof {
                assert(links@.take(links@.len() as int) =~= links@);
                assert forall|t: Seq<char>| #[trigger] ids_are(lookup(bl@, t), linkers(self.docs@, t, i + 1)) by {
                    assert(linkers(self.docs@, t, i + 1) == linkers(self.docs@, t, i as int) + copies(
                        self.docs@[i as int].0@,
                        occ(self.docs@[i as int].1.links@, t),
                    ));
                }
            }
            i += 1;
        }
        self.backlinks = bl;
    }

    /// The `id_path`s of the docs linking to `target`, in store order.
    pub fn linkers_of(&self, target: &str) -> (r: Vec<String>)
        requires
            self.wf(),
        ensures
            match lookup(self.backlinks@, target@) {
                Some(v) => strs(r@) == strs(v@),
                None => r@.len() == 0,
            },
    {
        match get(&self.backlinks, target) {
            Some(v) => {
                let mut out: Vec<String> = Vec::new();
                let mut i: usize = 0;
                while i < v.len()
                    invariant
                        i <= v@.len(),
                        out@.len() == i,
                        forall|k: int| 0 <= k < i ==> (#[trigger] out@[k])@ == v@[k]@,
                    decreases v.len() - i,
                {
                    out.push(v[i].clone());
                    i += 1;
                }
                proof { assert(strs(out@) =~= strs(v@)); }
                out
            },
            None => Vec::new(),
        }
    }
}

/// Position of key `k` in the store.
pub open spec fn pos_of(docs: Seq<(String, Doc)>, k: Seq<char>) -> int {
    choose|i: int| 0 <= i < docs.len() && (#[trigger] docs[i]).0@ == k
}

/// The key at `p` of a sorted store is found at `p`.
pub proof fn lemma_pos_of_pub(docs: Seq<(String, Doc)>, p: int)
    requires
        keys_sorted(docs),
        0 <= p < docs.len(),
    ensures
        pos_of(docs, docs[p].0@) == p,
{
    lemma_pos_of(docs, p);
}

proof fn lemma_pos_of(docs: Seq<(String, Doc)>, p: int)
    requires
        keys_sorted(docs),
        0 <= p < docs.len(),
    ensures
        pos_of(docs, docs[p].0@) == p,
{
    let k = docs[p].0@;
    assert(exists|i: int| 0 <= i < docs.len() && (#[trigger] docs[i]).0@ == k);
    let j = pos_of(docs, k);
    if j != p {
        crate::text::lemma_path_lt_irrefl(k);
        if j < p {
            assert(crate::text::path_lt(docs[j].0@, docs[p].0@));
        } else {
            assert(crate::text::path_lt(docs[p].0@, docs[j].0@));
        }
    }
}

/// The store positions of the linkers `ids` that are not omitted and still
/// have a doc, in order.
pub open spec fn kept_positions(docs: Seq<(String, Doc)>, ids: Seq<Seq<char>>, omit: Seq<Seq<char>>) -> Seq<usize>
    decreases ids.len(),
{
    if ids.len() == 0 {
        Seq::empty()
    } else {
        let r = kept_positions(docs, ids.drop_last(), omit);
        let k = ids.last();
        if !omit.contains(k) && has_key(docs, k) {
            r.push(pos_of(docs, k) as usize)
        } else {
            r
        }
    }
}

/// Backlinks are ordered by the options' key and direction, ties by
/// ascending `id_path`.
pub open spec fn backlink_order(o: Backlinks) -> Order {
    Order { key: o.order_by, dir: o.sort, tiebreak: true }
}

/// The ids recorded under `name` (none when absent).
pub open spec fn recorded_ids(m: Seq<(String, Vec<String>)>, name: Seq<char>) -> Seq<Seq<char>> {
    match lookup(m, name) {
        Some(v) => strs(v@),
        None => Seq::empty(),
    }
}

/// The linkers of `target` recorded in the graph.
pub open spec fn recorded_linkers(bl: Seq<(String, Vec<String>)>, target: Seq<char>) -> Seq<Seq<char>> {
    match lookup(bl, target) {
        Some(v) => strs(v@),
        None => Seq::empty(),
    }
}

impl DocIndex {
    /// Is `id` among `omit`?
    pub(crate) fn omitted(omit: &Vec<String>, id: &String) -> (r: bool)
        ensures
            r == strs(omit@).contains(id@),
    {
        let mut i: usize = 0;
        while i < omit.len()
            invariant
                i <= omit@.len(),
                forall|k: int| 0 <= k < i ==> (#[trigger] omit@[k])@ != id@,
            decreases omit.len() - i,
        {
            if crate::text::str_eq(omit[i].as_str(), id.as_str()) {
                proof { assert(strs(omit@)[i as int] == id@); }
                return true;
            }
            i += 1;
        }
        proof {
            if strs(omit@).contains(id@) {
                let k = choose|k: int| 0 <= k < strs(omit@).len() && strs(omit@)[k] == id@;
                assert(omit@[k]@ == id@);
            }
        }
        false
    }

    /// Docs that link to `target`, with `omit` dropped, ordered by the
    /// options (ties by `id_path`), capped by `limit`. An unknown target
    /// yields none.
    pub fn list_backlinks<'a>(&'a self, target: &str, opts: &Backlinks) -> (r: Vec<&'a Doc>)
        requires
            self.wf(),
        ensures
            r@.map_values(|d: &Doc| *d) == crate::listing::truncate(
                sort_spec(
                    docs_of(self.docs@),
                    backlink_order(*opts),
                    kept_positions(self.docs@, recorded_linkers(self.backlinks@, target@), strs(opts.omit@)),
                ),
                opts.limit,
            ).map_values(|p: usize| docs_of(self.docs@)[p as int]),
    {
        let ids = self.linkers_of(target);
        let ghost gids = recorded_linkers(self.backlinks@, target@);
        proof {
            if lookup(self.backlinks@, target@) is None {
                assert(strs(ids@) =~= gids);
            }
        }
        let mut ps: Vec<usize> = Vec::new();
        let mut i: usize = 0;
        proof { assert(gids.take(0) =~= Seq::<Seq<char>>::empty()); }
        while i < ids.len()
            invariant
                self.wf(),
                i <= ids@.len(),
                strs(ids@) == gids,
                ps@ == kept_positions(self.docs@, gids.take(i as int), strs(opts.omit@)),
                forall|k: int| 0 <= k < ps@.len() ==> #[trigger] ps@[k] < self.docs@.len(),
            decreases ids.len() - i,
        {
            proof {
                assert(gids.take(i + 1).drop_last() =~= gids.take(i as int));
                assert(gids.take(i + 1).last() == ids@[i as int]@);
            }
            if !Self::omitted(&opts.omit, &ids[i]) {
                let (found, p) = find_slot(&self.docs, ids[i].as_str());
                if found {
                    proof { lemma_pos_of(self.docs@, p as int); }
                    ps.push(p);
                }
            }
            i += 1;
        }
        proof { assert(gids.take(ids@.len() as int) =~= gids); }
        let o = Order { key: opts.order_by, dir: opts.sort, tiebreak: true };
        let mut sorted = sort_positions(&self.docs, o, &ps);
        match opts.limit {
            Some(n) => {
                if n < sorted.len() {
                    let ghost full = sorted@;
                    sorted.truncate(n);
                    proof {
                        assert forall|k: int| 0 <= k < sorted@.len() implies #[trigger] sorted@[k] < self.docs@.len() by {
                            assert(sorted@[k] == full[k]);
                        }
                    }
                }
            },
            None => {},
        }
        let mut out: Vec<&Doc> = Vec::new();
        let mut k: usize = 0;
        while k < sorted.len()
            invariant
                k <= sorted@.len(),
                forall|m: int| 0 <= m < sorted@.len() ==> #[trigger] sorted@[m] < self.docs@.len(),
                out@.len() == k,
                forall|m: int| 0 <= m < k ==> *(#[trigger] out@[m]) == docs_of(self.docs@)[sorted@[m] as int],
            decreases sorted.len() - k,
        {
            out.push(&self.docs[sorted[k]].1);
            k += 1;
        }
        proof {
            assert(out@.map_values(|d: &Doc| *d) =~= sorted@.map_values(|p: usize| docs_of(self.docs@)[p as int]));
        }
        out
    }
}

impl DocIndex {
    /// The read-only projections of every doc, in store order.
    pub fn to_doc_metas(&self) -> (r: Vec<crate::doc::DocMeta>)
        ensures
            r@.len() == self.docs@.len(),
            forall|i: int| 0 <= i < r@.len() ==> {
                let m = #[trigger] r@[i];
                let d = self.docs@[i].1;
                &&& m.id_path@ == d.id_path@
                &&& m.output_path@ == d.output_path@
                &&& m.title@ == d.title@
                &&& m.summary@ == d.summary@
                &&& crate::doc::terms_same(m.terms@, d.terms@)
                &&& m.date == d.date
                &&& m.updated == d.updated
            },
    {
        let mut out: Vec<crate::doc::DocMeta> = Vec::new();
        let mut i: usize = 0;
        while i < self.docs.len()
            invariant
                i <= self.docs@.len(),
                out@.len() == i,
                forall|k: int| 0 <= k < i ==> {
                    let m = #[trigger] out@[k];
                    let d = self.docs@[k].1;
                    &&& m.id_path@ == d.id_path@
                    &&& m.output_path@ == d.output_path@
                    &&& m.title@ == d.title@
                    &&& m.summary@ == d.summary@
                    &&& crate::doc::terms_same(m.terms@, d.terms@)
                    &&& m.date == d.date
                    &&& m.updated == d.updated
                },
            decreases self.docs.len() - i,
        {
            out.push(crate::doc::DocMeta::from_doc(&self.docs[i].1));
            i += 1;
        }
        out
    }
}

} // verus!
