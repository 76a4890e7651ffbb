//! The docs a `related` listing scores: every doc that shares something with
//! the post in one of the weighted namespaces (a taxonomy term, or, for
//! `links`, a link in either direction or a common link target), never the
//! post itself and never an omitted doc. The scores themselves are floating
//! point and are computed outside the library.

use vstd::prelude::*;
use crate::doc::{Bucket, Doc};
use crate::doc_index::{recorded_ids, strs, DocIndex};
use crate::sorted::{get, keys_sorted, lookup};
use crate::text::str_eq;

verus! {

broadcast use vstd::std_specs::vec::group_vec_axioms;

/// The namespace naming the link graph in `related` weights.
pub const LINKS: &'static str = "links";

/// `id` gets a share of namespace `ns` from the post `d` stored at `post`:
/// for `links`, it links to the post, the post links to it, or it links to a
/// doc the post links to; for a taxonomy, it carries one of the post's terms.
pub open spec fn shares(ix: DocIndex, d: Doc, post: Seq<char>, ns: Seq<char>, id: Seq<char>) -> bool {
    if ns == LINKS@ {
        ||| recorded_ids(ix.backlinks@, post).contains(id)
        ||| strs(d.links@).contains(id)
        ||| exists|j: int| 0 <= j < d.links@.len() && recorded_ids(ix.backlinks@, (#[trigger] d.links@[j])@).contains(id)
    } else {
        match (lookup(ix.taxonomies@, ns), lookup(d.terms@, ns)) {
            (Some(tx), Some(b)) => exists|k: int| 0 <= k < b@.len() && recorded_ids(tx@, (#[trigger] b@[k]).0@).contains(id),
            _ => false,
        }
    }
}

/// `id` is a candidate of a `related` listing for `post`: the post is
/// stored, `id` shares one of the namespaces with it, and `id` is a stored
/// doc other than the post that is not omitted.
pub open spec fn related_candidate(ix: DocIndex, post: Seq<char>, namespaces: Seq<Seq<char>>, omit: Seq<Seq<char>>, id: Seq<char>) -> bool {
    &&& lookup(ix.docs@, post) matches Some(d) && exists|i: int|
        0 <= i < namespaces.len() && shares(ix, d, post, #[trigger] namespaces[i], id)
    &&& id != post
    &&& !omit.contains(id)
    &&& lookup(ix.docs@, id) is Some
}

proof fn lemma_concat_contains(a: Seq<Seq<char>>, b: Seq<Seq<char>>)
    ensures
        forall|x: Seq<char>| #[trigger] (a + b).contains(x) <==> a.contains(x) || b.contains(x),
{
    assert forall|x: Seq<char>| #[trigger] (a + b).contains(x) <==> a.contains(x) || b.contains(x) by {
        if (a + b).contains(x) {
            let k = choose|k: int| 0 <= k < (a + b).len() && (a + b)[k] == x;
            if k < a.len() {
                assert(a[k] == x);
            } else {
                assert(b[k - a.len()] == x);
            }
        }
        if a.contains(x) {
            let k = choose|k: int| 0 <= k < a.len() && a[k] == x;
            assert((a + b)[k] == x);
        }
        if b.contains(x) {
            let k = choose|k: int| 0 <= k < b.len() && b[k] == x;
            assert((a + b)[a.len() + k] == x);
        }
    }
}

/// Append copies of `src` to `out`.
fn push_all(out: &mut Vec<String>, src: &Vec<String>)
    ensures
        strs(final(out)@) == strs(old(out)@) + strs(src@),
{
    let ghost start = strs(out@);
    let mut i: usize = 0;
    while i < src.len()
        invariant
            i <= src@.len(),
            strs(out@) == start + strs(src@).take(i as int),
        decreases src.len() - i,
    {
        let ghost before = out@;
        out.push(src[i].clone());
        proof {
            assert(out@ == before.push(src@[i as int]));
            assert(strs(out@) =~= strs(before).push(src@[i as int]@));
            assert(strs(src@).take(i + 1) =~= strs(src@).take(i as int).push(src@[i as int]@));
            assert(strs(out@) =~= start + strs(src@).take(i + 1));
        }
        i += 1;
    }
    proof { assert(strs(src@).take(src@.len() as int) =~= strs(src@)); }
}

impl DocIndex {
    /// The ids sharing the link graph with the post `d` stored at `post`.
    fn link_pool(&self, d: &Doc, post: &str) -> (r: Vec<String>)
        requires
            self.wf(),
        ensures
            forall|id: Seq<char>| #[trigger] strs(r@).contains(id) <==> shares(*self, *d, post@, LINKS@, id),
    {
        let mut out = self.linkers_of(post);
        proof {
            assert(strs(out@) == recorded_ids(self.backlinks@, post@));
        }
        push_all(&mut out, &d.links);
        proof { lemma_concat_contains(recorded_ids(self.backlinks@, post@), strs(d.links@)); }
        let ghost base = strs(out@);
        let mut j: usize = 0;
        while j < d.links.len()
            invariant
                j <= d.links@.len(),
                self.wf(),
                base == recorded_ids(self.backlinks@, post@) + strs(d.links@),
                forall|id: Seq<char>| #[trigger] strs(out@).contains(id) <==> (base.contains(id) || exists|k: int|
                    0 <= k < j && recorded_ids(self.backlinks@, (#[trigger] d.links@[k])@).contains(id)),
            decreases d.links.len() - j,
        {
            let more = self.linkers_of(d.links[j].as_str());
            let ghost before = strs(out@);
            push_all(&mut out, &more);
            proof {
                assert(strs(more@) == recorded_ids(self.backlinks@, d.links@[j as int]@));
                lemma_concat_contains(before, strs(more@));
                assert forall|id: Seq<char>| #[trigger] strs(out@).contains(id) <==> (base.contains(id) || exists|k: int|
                    0 <= k < j + 1 && recorded_ids(self.backlinks@, (#[trigger] d.links@[k])@).contains(id)) by {
                    if exists|k: int| 0 <= k < j + 1 && recorded_ids(self.backlinks@, (#[trigger] d.links@[k])@).contains(id) {
                        let k = choose|k: int| 0 <= k < j + 1 && recorded_ids(self.backlinks@, (#[trigger] d.links@[k])@).contains(id);
                        if k < j {
                            assert(before.contains(id));
                        }
                    }
                    if before.contains(id) && !base.contains(id) {
                        let k = choose|k: int| 0 <= k < j && recorded_ids(self.backlinks@, (#[trigger] d.links@[k])@).contains(id);
                        assert(0 <= k < j + 1);
                    }
                }
            }
            j += 1;
        }
        proof {
            reveal_strlit("links");
            assert forall|id: Seq<char>| #[trigger] strs(out@).contains(id) <==> shares(*self, *d, post@, LINKS@, id) by {
                lemma_concat_contains(recorded_ids(self.backlinks@, post@), strs(d.links@));
            }
        }
        out
    }

    /// The ids filed under any of the terms of bucket `b` in taxonomy `tx`.
    fn term_pool(tx: &Vec<(String, Vec<String>)>, b: &Bucket) -> (r: Vec<String>)
        requires
            keys_sorted(tx@),
        ensures
            forall|id: Seq<char>| #[trigger] strs(r@).contains(id) <==> exists|k: int|
                0 <= k < b@.len() && recorded_ids(tx@, (#[trigger] b@[k]).0@).contains(id),
    {
        let mut out: Vec<String> = Vec::new();
        let mut k: usize = 0;
        while k < b.len()
            invariant
                k <= b@.len(),
                keys_sorted(tx@),
                forall|id: Seq<char>| #[trigger] strs(out@).contains(id) <==> exists|m: int|
                    0 <= m < k && recorded_ids(tx@, (#[trigger] b@[m]).0@).contains(id),
            decreases b.len() - k,
        {
            let ghost before = strs(out@);
            match get(tx, b[k].0.as_str()) {
                Some(ids) => {
                    push_all(&mut out, ids);
                    proof {
                        assert(recorded_ids(tx@, b@[k as int].0@) == strs(ids@));
                        lemma_concat_contains(before, strs(ids@));
                    }
                },
                None => {
                    proof { assert(recorded_ids(tx@, b@[k as int].0@) =~= Seq::<Seq<char>>::empty()); }
                },
            }
            proof {
                assert forall|id: Seq<char>| #[trigger] strs(out@).contains(id) <==> exists|m: int|
                    0 <= m < k + 1 && recorded_ids(tx@, (#[trigger] b@[m]).0@).contains(id) by {
                    if exists|m: int| 0 <= m < k + 1 && recorded_ids(tx@, (#[trigger] b@[m]).0@).contains(id) {
                        let m = choose|m: int| 0 <= m < k + 1 && recorded_ids(tx@, (#[trigger] b@[m]).0@).contains(id);
                        if m < k {
                            assert(before.contains(id));
                        }
                    }
                    if before.contains(id) {
                        let m = choose|m: int| 0 <= m < k && recorded_ids(tx@, (#[trigger] b@[m]).0@).contains(id);
                        assert(0 <= m < k + 1);
                    }
                }
            }
            k += 1;
        }
        out
    }

    /// The ids sharing namespace `ns` with the post `d` stored at `post`.
    fn namespace_pool(&self, d: &Doc, post: &str, ns: &str) -> (r: Vec<String>)
        requires
            self.wf(),
            lookup(self.docs@, post@) == Some(*d),
        ensures
            forall|id: Seq<char>| #[trigger] strs(r@).contains(id) <==> shares(*self, *d, post@, ns@, id),
    {
        if str_eq(ns, LINKS) {
            proof { reveal_strlit("links"); }
            return self.link_pool(d, post);
        }
        proof { reveal_strlit("links"); }
        assert(ns@ != LINKS@);
        let none: Vec<String> = Vec::new();
        proof { assert(strs(none@) =~= Seq::<Seq<char>>::empty()); }
        match self.get_taxonomy(ns) {
            Some(tx) => {
                proof {
                    crate::sorted::lemma_lookup_some(self.taxonomies@, ns@);
                    let t = choose|i: int| 0 <= i < self.taxonomies@.len() && (#[trigger] self.taxonomies@[i]).0@ == ns@
                        && lookup(self.taxonomies@, ns@) == Some(self.taxonomies@[i].1);
                    assert(keys_sorted(self.taxonomies@[t].1@));
                    crate::sorted::lemma_lookup_some(self.docs@, post@);
                    let i = choose|i: int| 0 <= i < self.docs@.len() && (#[trigger] self.docs@[i]).0@ == post@ && lookup(
                        self.docs@,
                        post@,
                    ) == Some(self.docs@[i].1);
                    assert(keys_sorted(self.docs@[i].1.terms@));
                }
                match get(&d.terms, ns) {
                    Some(b) => {
                        let r = Self::term_pool(tx, b);
                        proof {
                            assert forall|id: Seq<char>| #[trigger] strs(r@).contains(id) <==> shares(*self, *d, post@, ns@, id) by {
                                assert(lookup(self.taxonomies@, ns@) == Some(*tx));
                                assert(lookup(d.terms@, ns@) == Some(*b));
                                let tv = lookup(self.taxonomies@, ns@)->0;
                                let bv = lookup(d.terms@, ns@)->0;
                                if strs(r@).contains(id) {
                                    let k = choose|k: int| 0 <= k < b@.len() && recorded_ids(tx@, (#[trigger] b@[k]).0@).contains(id);
                                    assert(bv@[k] == b@[k]);
                                    assert(recorded_ids(tv@, (bv@[k]).0@).contains(id));
                                }
                                if shares(*self, *d, post@, ns@, id) {
                                    let k = choose|k: int| 0 <= k < bv@.len() && recorded_ids(tv@, (#[trigger] bv@[k]).0@).contains(id);
                                    assert(bv@[k] == b@[k]);
                                    assert(recorded_ids(tx@, (b@[k]).0@).contains(id));
                                }
                            }
                        }
                        r
                    },
                    None => {
                        proof {
                            assert forall|id: Seq<char>| #[trigger] strs(none@).contains(id) <==> shares(*self, *d, post@, ns@, id) by {
                                assert(lookup(d.terms@, ns@) is None);
                            }
                        }
                        none
                    },
                }
            },
            None => {
                proof {
                    assert forall|id: Seq<char>| #[trigger] strs(none@).contains(id) <==> shares(*self, *d, post@, ns@, id) by {
                        assert(lookup(self.taxonomies@, ns@) is None);
                    }
                }
                none
            },
        }
    }

    /// The docs a `related` listing for `post` scores, each once: every
    /// stored doc other than the post, and not omitted, that shares one of
    /// the `namespaces` with it. An unknown post has none.
    pub fn related_candidates(&self, post: &str, namespaces: &Vec<String>, omit: &Vec<String>) -> (r: Vec<String>)
        requires
            self.wf(),
        ensures
            forall|id: Seq<char>| #[trigger] strs(r@).contains(id) <==> related_candidate(
                *self,
                post@,
                strs(namespaces@),
                strs(omit@),
                id,
            ),
            forall|i: int, j: int| 0 <= i < j < r@.len() ==> (#[trigger] r@[i])@ != (#[trigger] r@[j])@,
    {
        let mut out: Vec<String> = Vec::new();
        let d = match self.doc(post) {
            Some(d) => d,
            None => {
                proof { assert(strs(out@) =~= Seq::<Seq<char>>::empty()); }
                return out;
            },
        };
        let ghost nv = strs(namespaces@);
        let mut pool: Vec<String> = Vec::new();
        proof { assert(strs(pool@) =~= Seq::<Seq<char>>::empty()); }
        let mut i: usize = 0;
        while i < namespaces.len()
            invariant
                i <= namespaces@.len(),
                self.wf(),
                nv == strs(namespaces@),
                lookup(self.docs@, post@) == Some(*d),
                forall|id: Seq<char>| #[trigger] strs(pool@).contains(id) <==> exists|m: int|
                    0 <= m < i && shares(*self, *d, post@, #[trigger] nv[m], id),
            decreases namespaces.len() - i,
        {
            let more = self.namespace_pool(d, post, namespaces[i].as_str());
            let ghost before = strs(pool@);
            push_all(&mut pool, &more);
            proof {
                lemma_concat_contains(before, strs(more@));
                assert(nv[i as int] == namespaces@[i as int]@);
                assert forall|id: Seq<char>| #[trigger] strs(pool@).contains(id) <==> exists|m: int|
                    0 <= m < i + 1 && shares(*self, *d, post@, #[trigger] nv[m], id) by {
                    if exists|m: int| 0 <= m < i + 1 && shares(*self, *d, post@, #[trigger] nv[m], id) {
                        let m = choose|m: int| 0 <= m < i + 1 && shares(*self, *d, post@, #[trigger] nv[m], id);
                        if m < i {
                            assert(before.contains(id));
                        }
                    }
                    if before.contains(id) {
                        let m = choose|m: int| 0 <= m < i && shares(*self, *d, post@, #[trigger] nv[m], id);
                        assert(0 <= m < i + 1);
                    }
                }
            }
            i += 1;
        }
        let ghost pv = strs(pool@);
        let mut k: usize = 0;
        proof { assert(strs(out@) =~= Seq::<Seq<char>>::empty()); }
        while k < pool.len()
            invariant
                k <= pool@.len(),
                self.wf(),
                pv == strs(pool@),
                forall|id: Seq<char>| #[trigger] strs(out@).contains(id) <==> (pv.take(k as int).contains(id) && id != post@
                    && !strs(omit@).contains(id) && lookup(self.docs@, id) is Some),
                forall|a: int, b: int| 0 <= a < b < out@.len() ==> (#[trigger] out@[a])@ != (#[trigger] out@[b])@,
            decreases pool.len() - k,
        {
            let id = &pool[k];
            let ghost before = out@;
            let keep = !str_eq(id.as_str(), post) && !DocIndex::omitted(omit, id) && self.doc(id.as_str()).is_some()
                && !DocIndex::omitted(&out, id);
            if keep {
                out.push(id.clone());
            }
            proof {
                assert(pv.take(k + 1) =~= pv.take(k as int).push(pv[k as int]));
                assert(pv[k as int] == id@);
                assert forall|x: Seq<char>| #[trigger] strs(out@).contains(x) <==> (pv.take(k + 1).contains(x) && x != post@
                    && !strs(omit@).contains(x) && lookup(self.docs@, x) is Some) by {
                    let t1 = pv.take(k + 1);
                    let t0 = pv.take(k as int);
                    assert(t1.contains(x) <==> (t0.contains(x) || x == id@)) by {
                        if t1.contains(x) {
                            let q = choose|q: int| 0 <= q < t1.len() && t1[q] == x;
                            if q < k {
                                assert(t0[q] == x);
                            }
                        }
                        if t0.contains(x) {
                            let q = choose|q: int| 0 <= q < t0.len() && t0[q] == x;
                            assert(t1[q] == x);
                        }
                        if x == id@ {
                            assert(t1[k as int] == x);
                        }
                    }
                    assert(strs(before).contains(x) <==> (t0.contains(x) && x != post@ && !strs(omit@).contains(x)
                        && lookup(self.docs@, x) is Some));
                    if keep {
                        let so = strs(out@);
                        let sb = strs(before);
                        assert(so =~= sb.push(id@));
                        assert(so.contains(x) <==> (sb.contains(x) || x == id@)) by {
                            if so.contains(x) {
                                let q = choose|q: int| 0 <= q < so.len() && so[q] == x;
                                if q < sb.len() {
                                    assert(sb[q] == x);
                                }
                            }
                            if sb.contains(x) {
                                let q = choose|q: int| 0 <= q < sb.len() && sb[q] == x;
                                assert(so[q] == x);
                            }
                            if x == id@ {
                                assert(so[sb.len() as int] == x);
                            }
                        }
                    } else {
                        assert(strs(out@) == strs(before));
                    }
                }
                if keep {
                    assert forall|a: int, b: int| 0 <= a < b < out@.len() implies (#[trigger] out@[a])@ != (#[trigger] out@[b])@ by {
                        if b == before.len() {
                            assert(strs(before)[a] == out@[a]@);
                            assert(strs(before).contains(out@[a]@));
                        } else {
                            assert(out@[a] == before[a] && out@[b] == before[b]);
                        }
                    }
                }
            }
            k += 1;
        }
        proof {
            assert(pv.take(pool@.len() as int) =~= pv);
            assert forall|id: Seq<char>| #[trigger] strs(out@).contains(id) <==> related_candidate(
                *self,
                post@,
                strs(namespaces@),
                strs(omit@),
                id,
            ) by {
                assert(lookup(self.docs@, post@) == Some(*d));
            }
        }
        out
    }
}

} // verus!
