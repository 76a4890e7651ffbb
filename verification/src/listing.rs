//! Evaluating a query over docs: filter by path glob, `omit` and tag, order
//! stably by the query's key and direction, then cap by its limit.

use vstd::prelude::*;
use crate::doc::Doc;
use crate::order::{before, docs_of, ins, sort_positions, sort_spec, sorted_by, Order};
use crate::query::{glob_hits, glob_matches, Query, QueryView};
use crate::slug::{slugify, slugify_spec};
use crate::sorted::has_key;
use crate::text::str_eq;

verus! {

broadcast use vstd::std_specs::vec::group_vec_axioms;

/// `d` has the tag slug `s` in its `tags` bucket.
pub open spec fn tagged(d: Doc, s: Seq<char>) -> bool {
    exists|i: int| 0 <= i < d.terms@.len() && (#[trigger] d.terms@[i]).0@ == "tags"@ && has_key(d.terms@[i].1@, s)
}

/// `d` passes the query's filters: its path matches the glob, it is not
/// omitted, and it carries the tag (compared by slug).
pub open spec fn passes(q: QueryView, d: Doc) -> bool {
    &&& match q.path {
        Some(p) => glob_hits(p, d.id_path@),
        None => true,
    }
    &&& !q.omit.contains(d.id_path@)
    &&& match q.tag {
        Some(t) => tagged(d, slugify_spec(t)),
        None => true,
    }
}

/// The positions among `c` whose docs pass, in order.
pub open spec fn filter_spec(q: QueryView, ds: Seq<Doc>, c: Seq<usize>) -> Seq<usize>
    decreases c.len(),
{
    if c.len() == 0 {
        c
    } else {
        let f = filter_spec(q, ds, c.drop_last());
        if passes(q, ds[c.last() as int]) {
            f.push(c.last())
        } else {
            f
        }
    }
}

/// The order a query lists in: its key and direction, ties in input order.
pub open spec fn query_order(q: QueryView) -> Order {
    Order { key: q.order_by, dir: q.sort, tiebreak: false }
}

/// The first `limit` entries, when a limit is set.
pub open spec fn truncate(s: Seq<usize>, limit: Option<usize>) -> Seq<usize> {
    match limit {
        Some(n) => if n < s.len() { s.take(n as int) } else { s },
        None => s,
    }
}

/// The positions a query lists out of candidates `c`.
pub open spec fn eval_spec(q: QueryView, ds: Seq<Doc>, c: Seq<usize>) -> Seq<usize> {
    truncate(sort_spec(ds, query_order(q), filter_spec(q, ds, c)), q.limit)
}

/// Does `d` carry tag slug `s`?
fn has_tag(d: &Doc, s: &str) -> (r: bool)
    ensures
        r == tagged(*d, s@),
{
    let mut i: usize = 0;
    while i < d.terms.len()
        invariant
            i <= d.terms@.len(),
            forall|j: int| 0 <= j < i ==> !((#[trigger] d.terms@[j]).0@ == "tags"@ && has_key(d.terms@[j].1@, s@)),
        decreases d.terms.len() - i,
    {
        if str_eq(d.terms[i].0.as_str(), "tags") {
            let b = &d.terms[i].1;
            let mut j: usize = 0;
            while j < b.len()
                invariant
                    j <= b@.len(),
                    i < d.terms@.len(),
                    d.terms@[i as int].0@ == "tags"@,
                    *b == d.terms@[i as int].1,
                    forall|k: int| 0 <= k < j ==> (#[trigger] b@[k]).0@ != s@,
                decreases b.len() - j,
            {
                if str_eq(b[j].0.as_str(), s) {
                    proof {
                        assert(has_key(b@, s@));
                        assert(d.terms@[i as int].0@ == "tags"@ && has_key(d.terms@[i as int].1@, s@));
                    }
                    return true;
                }
                j += 1;
            }
        }
        i += 1;
    }
    false
}

/// Does the query's filter let `d` through?
pub fn doc_passes(q: &Query, d: &Doc) -> (r: bool)
    ensures
        r == passes(q@, *d),
{
    match &q.path {
        Some(p) => {
            if !glob_matches(p.as_str(), d.id_path.as_str()) {
                return false;
            }
        },
        None => {},
    }
    let mut i: usize = 0;
    while i < q.omit.len()
        invariant
            i <= q.omit@.len(),
            forall|j: int| 0 <= j < i ==> (#[trigger] q.omit@[j])@ != d.id_path@,
        decreases q.omit.len() - i,
    {
        if str_eq(q.omit[i].as_str(), d.id_path.as_str()) {
            proof { assert(q@.omit[i as int] == d.id_path@); }
            return false;
        }
        i += 1;
    }
    proof {
        if q@.omit.contains(d.id_path@) {
            let j = choose|j: int| 0 <= j < q@.omit.len() && q@.omit[j] == d.id_path@;
            assert(q.omit@[j]@ == d.id_path@);
        }
    }
    match &q.tag {
        Some(t) => {
            let s = slugify(t.as_str());
            has_tag(d, s.as_str())
        },
        None => true,
    }
}

/// The positions a query lists out of candidate positions `cands` into
/// `docs`: those that pass, in the query's order (stable), capped by its
/// limit.
pub fn evaluate_on(q: &Query, docs: &Vec<(String, Doc)>, cands: &Vec<usize>) -> (r: Vec<usize>)
    requires
        forall|i: int| 0 <= i < cands@.len() ==> #[trigger] cands@[i] < docs@.len(),
    ensures
        r@ == eval_spec(q@, docs_of(docs@), cands@),
        forall|i: int| 0 <= i < r@.len() ==> #[trigger] r@[i] < docs@.len(),
{
    let ghost ds = docs_of(docs@);
    let mut kept: Vec<usize> = Vec::new();
    let mut i: usize = 0;
    proof { assert(cands@.take(0) =~= Seq::<usize>::empty()); }
    while i < cands.len()
        invariant
            i <= cands@.len(),
            ds == docs_of(docs@),
            forall|k: int| 0 <= k < cands@.len() ==> #[trigger] cands@[k] < docs@.len(),
            forall|k: int| 0 <= k < kept@.len() ==> #[trigger] kept@[k] < docs@.len(),
            kept@ == filter_spec(q@, ds, cands@.take(i as int)),
        decreases cands.len() - i,
    {
        let c = cands[i];
        proof {
            assert(cands@.take(i + 1).drop_last() == cands@.take(i as int));
            assert(cands@.take(i + 1).last() == c);
            assert(ds[c as int] == docs@[c as int].1);
        }
        if doc_passes(q, &docs[c].1) {
            kept.push(c);
        }
        i += 1;
    }
    proof { assert(cands@.take(cands.len() as int) == cands@); }
    let o = Order { key: q.order_by, dir: q.sort, tiebreak: false };
    let mut out = sort_positions(docs, o, &kept);
    match q.limit {
        Some(n) => {
            if n < out.len() {
                let ghost full = out@;
                out.truncate(n);
                proof {
                    assert forall|i: int| 0 <= i < out@.len() implies #[trigger] out@[i] < docs@.len() by {
                        assert(out@[i] == full[i]);
                    }
                }
            }
        },
        None => {},
    }
    out
}

/// Evaluate a query over `docs` (each keyed by its `id_path`): the docs
/// that pass its filters, in its order (stable: ties keep input order),
/// capped by its limit.
pub fn evaluate<'a>(q: &Query, docs: &'a Vec<(String, Doc)>) -> (r: Vec<&'a Doc>)
    ensures
        r@.map_values(|d: &Doc| *d) == eval_spec(q@, docs_of(docs@), Seq::new(docs@.len(), |i: int| i as usize)).map_values(
            |p: usize| docs_of(docs@)[p as int],
        ),
{
    let all = all_positions(docs.len());
    proof { assert(all@ =~= Seq::new(docs@.len(), |i: int| i as usize)); }
    let ps = evaluate_on(q, docs, &all);
    let mut out: Vec<&Doc> = Vec::new();
    let mut k: usize = 0;
    while k < ps.len()
        invariant
            k <= ps@.len(),
            forall|m: int| 0 <= m < ps@.len() ==> #[trigger] ps@[m] < docs@.len(),
            out@.len() == k,
            forall|m: int| 0 <= m < k ==> *(#[trigger] out@[m]) == docs_of(docs@)[ps@[m] as int],
        decreases ps.len() - k,
    {
        out.push(&docs[ps[k]].1);
        k += 1;
    }
    proof {
        assert(out@.map_values(|d: &Doc| *d) =~= ps@.map_values(|p: usize| docs_of(docs@)[p as int]));
    }
    out
}

/// Every position in range `0..n`.
pub fn all_positions(n: usize) -> (r: Vec<usize>)
    ensures
        r@.len() == n,
        forall|i: int| 0 <= i < n ==> #[trigger] r@[i] == i,
{
    let mut v: Vec<usize> = Vec::new();
    let mut i: usize = 0;
    while i < n
        invariant
            i <= n,
            v@.len() == i,
            forall|k: int| 0 <= k < i ==> #[trigger] v@[k] == k,
        decreases n - i,
    {
        v.push(i);
        i += 1;
    }
    v
}

// ---------------------------------------------------------------------------
// What a listing is
// ---------------------------------------------------------------------------

proof fn lemma_ins_contents(ds: Seq<Doc>, o: Order, s: Seq<usize>, x: usize)
    ensures
        ins(ds, o, s, x).len() == s.len() + 1,
        forall|y: usize| #[trigger] ins(ds, o, s, x).contains(y) <==> (s.contains(y) || y == x),
{
    let p = first_before(ds, o, s, x, 0);
    lemma_first_before(ds, o, s, x, 0);
    crate::order::lemma_ins_at(ds, o, s, x, p);
    let r = s.insert(p, x);
    assert forall|y: usize| #[trigger] r.contains(y) <==> (s.contains(y) || y == x) by {
        if r.contains(y) {
            let k = choose|k: int| 0 <= k < r.len() && r[k] == y;
            if k < p {
                assert(s[k] == y);
            } else if k > p {
                assert(s[k - 1] == y);
            }
        }
        if s.contains(y) {
            let k = choose|k: int| 0 <= k < s.len() && s[k] == y;
            if k < p {
                assert(r[k] == y);
            } else {
                assert(r[k + 1] == y);
            }
        }
        if y == x {
            assert(r[p] == x);
        }
    }
}

/// Sorting only reorders: same length, same entries.
pub proof fn lemma_sort_contents(ds: Seq<Doc>, o: Order, s: Seq<usize>)
    ensures
        sort_spec(ds, o, s).len() == s.len(),
        forall|y: usize| #[trigger] sort_spec(ds, o, s).contains(y) <==> s.contains(y),
    decreases s.len(),
{
    if s.len() > 0 {
        let t = s.drop_last();
        lemma_sort_contents(ds, o, t);
        lemma_ins_contents(ds, o, sort_spec(ds, o, t), s.last());
        assert forall|y: usize| #[trigger] sort_spec(ds, o, s).contains(y) <==> s.contains(y) by {
            if s.contains(y) {
                let k = choose|k: int| 0 <= k < s.len() && s[k] == y;
                if k < s.len() - 1 {
                    assert(t[k] == y);
                    assert(t.contains(y));
                }
            }
            if t.contains(y) {
                let k = choose|k: int| 0 <= k < t.len() && t[k] == y;
                assert(s[k] == y);
            }
        }
    }
}

/// The filter keeps exactly the candidates that pass.
pub proof fn lemma_filter_contents(q: QueryView, ds: Seq<Doc>, c: Seq<usize>)
    ensures
        forall|y: usize| #[trigger] filter_spec(q, ds, c).contains(y) <==> (c.contains(y) && passes(q, ds[y as int])),
    decreases c.len(),
{
    if c.len() > 0 {
        let t = c.drop_last();
        lemma_filter_contents(q, ds, t);
        let f = filter_spec(q, ds, t);
        assert forall|y: usize| #[trigger] filter_spec(q, ds, c).contains(y) <==> (c.contains(y) && passes(q, ds[y as int])) by {
            if c.contains(y) {
                let k = choose|k: int| 0 <= k < c.len() && c[k] == y;
                if k < c.len() - 1 {
                    assert(t[k] == y);
                    assert(t.contains(y));
                }
            }
            if t.contains(y) {
                let k = choose|k: int| 0 <= k < t.len() && t[k] == y;
                assert(c[k] == y);
            }
            if passes(q, ds[c.last() as int]) {
                if f.push(c.last()).contains(y) {
                    let k = choose|k: int| 0 <= k < f.len() + 1 && f.push(c.last())[k] == y;
                    if k < f.len() {
                        assert(f[k] == y);
                        assert(f.contains(y));
                    }
                }
                if f.contains(y) {
                    let k = choose|k: int| 0 <= k < f.len() && f[k] == y;
                    assert(f.push(c.last())[k] == y);
                }
                if y == c.last() {
                    assert(f.push(c.last())[f.len() as int] == y);
                }
            }
        }
    }
}

/// A query lists docs that pass its filters, in its order; with no limit it
/// lists every candidate that passes.
pub proof fn lemma_listing(q: QueryView, ds: Seq<Doc>, c: Seq<usize>)
    ensures
        forall|i: int| 0 <= i < eval_spec(q, ds, c).len() ==> {
            &&& c.contains(#[trigger] eval_spec(q, ds, c)[i])
            &&& passes(q, ds[eval_spec(q, ds, c)[i] as int])
        },
        q.limit is None ==> forall|y: usize| c.contains(y) && passes(q, ds[y as int]) ==> #[trigger] eval_spec(q, ds, c).contains(y),
        sorted_by(ds, query_order(q), eval_spec(q, ds, c)),
{
    let f = filter_spec(q, ds, c);
    let s = sort_spec(ds, query_order(q), f);
    lemma_filter_contents(q, ds, c);
    lemma_sort_contents(ds, query_order(q), f);
    lemma_sort_sorted(ds, query_order(q), f);
    let e = eval_spec(q, ds, c);
    assert forall|i: int| 0 <= i < e.len() implies {
        &&& c.contains(#[trigger] e[i])
        &&& passes(q, ds[e[i] as int])
    } by {
        assert(e[i] == s[i]);
        assert(s.contains(s[i]));
    }
}

/// Positions in strictly increasing order.
pub open spec fn increasing(s: Seq<usize>) -> bool {
    forall|i: int, j: int| 0 <= i < j < s.len() ==> #[trigger] s[i] < #[trigger] s[j]
}

/// Entries whose keys tie keep their input (position) order.
pub open spec fn stable_by(ds: Seq<Doc>, o: Order, s: Seq<usize>) -> bool {
    forall|i: int, j: int|
        0 <= i < j < s.len() && !before(o, #[trigger] ds[s[i] as int], #[trigger] ds[s[j] as int]) ==> s[i] < s[j]
}

/// Filtering keeps positions in increasing order.
pub proof fn lemma_filter_increasing(q: QueryView, ds: Seq<Doc>, c: Seq<usize>)
    requires
        increasing(c),
    ensures
        increasing(filter_spec(q, ds, c)),
    decreases c.len(),
{
    if c.len() > 0 {
        let t = c.drop_last();
        assert(increasing(t)) by {
            assert forall|i: int, j: int| 0 <= i < j < t.len() implies #[trigger] t[i] < #[trigger] t[j] by {
                assert(t[i] == c[i] && t[j] == c[j]);
            }
        }
        lemma_filter_increasing(q, ds, t);
        lemma_filter_contents(q, ds, t);
        let f = filter_spec(q, ds, t);
        let x = c.last();
        if passes(q, ds[x as int]) {
            assert forall|i: int, j: int| 0 <= i < j < f.push(x).len() implies #[trigger] f.push(x)[i] < #[trigger] f.push(
                x,
            )[j] by {
                assert(f.push(x)[i] == f[i]);
                assert(f.contains(f[i]));
                let k = choose|k: int| 0 <= k < t.len() && t[k] == f[i];
                assert(c[k] == t[k]);
                if j < f.len() {
                    assert(f.push(x)[j] == f[j]);
                }
            }
        }
    }
}

/// A stable insertion sort of increasing positions keeps tied entries in
/// position order.
pub proof fn lemma_sort_stable(ds: Seq<Doc>, o: Order, s: Seq<usize>)
    requires
        increasing(s),
    ensures
        stable_by(ds, o, sort_spec(ds, o, s)),
    decreases s.len(),
{
    if s.len() > 0 {
        let u = s.drop_last();
        assert(increasing(u)) by {
            assert forall|i: int, j: int| 0 <= i < j < u.len() implies #[trigger] u[i] < #[trigger] u[j] by {
                assert(u[i] == s[i] && u[j] == s[j]);
            }
        }
        lemma_sort_stable(ds, o, u);
        lemma_sort_sorted(ds, o, u);
        lemma_sort_contents(ds, o, u);
        let t = sort_spec(ds, o, u);
        let x = s.last();
        let p = first_before(ds, o, t, x, 0);
        lemma_first_before(ds, o, t, x, 0);
        crate::order::lemma_ins_at(ds, o, t, x, p);
        let r = t.insert(p, x);
        assert(sort_spec(ds, o, s) == r);
        assert forall|k: int| 0 <= k < t.len() implies #[trigger] t[k] < x by {
            assert(t.contains(t[k]));
            let m = choose|m: int| 0 <= m < u.len() && u[m] == t[k];
            assert(s[m] == u[m]);
        }
        assert forall|i: int, j: int|
            0 <= i < j < r.len() && !before(o, #[trigger] ds[r[i] as int], #[trigger] ds[r[j] as int]) implies r[i] < r[j] by {
            if j < p {
                assert(r[i] == t[i] && r[j] == t[j]);
            } else if j == p {
                assert(r[i] == t[i] && r[j] == x);
            } else if i < p {
                assert(r[i] == t[i] && r[j] == t[j - 1]);
            } else if i == p {
                assert(r[i] == x && r[j] == t[j - 1]);
                if j - 1 > p {
                    assert(!before(o, ds[t[j - 1] as int], ds[t[p] as int]));
                }
                crate::order::lemma_before_weak(o, ds[x as int], ds[t[p] as int], ds[t[j - 1] as int]);
            } else {
                assert(r[i] == t[i - 1] && r[j] == t[j - 1]);
            }
        }
    }
}

/// `sort_spec` produces a sorted sequence.
pub proof fn lemma_sort_sorted(ds: Seq<Doc>, o: Order, s: Seq<usize>)
    ensures
        sorted_by(ds, o, sort_spec(ds, o, s)),
    decreases s.len(),
{
    if s.len() > 0 {
        let t = sort_spec(ds, o, s.drop_last());
        lemma_sort_sorted(ds, o, s.drop_last());
        let x = s.last();
        let p = first_before(ds, o, t, x, 0);
        lemma_first_before(ds, o, t, x, 0);
        crate::order::lemma_ins_at(ds, o, t, x, p);
        crate::order::lemma_insert_sorted(ds, o, t, x, p);
    }
}

/// First position at or after `i` whose entry `x` sorts before.
spec fn first_before(ds: Seq<Doc>, o: Order, t: Seq<usize>, x: usize, i: int) -> int
    decreases t.len() - i,
{
    if i >= t.len() || i < 0 {
        t.len() as int
    } else if before(o, ds[x as int], ds[t[i] as int]) {
        i
    } else {
        first_before(ds, o, t, x, i + 1)
    }
}

proof fn lemma_first_before(ds: Seq<Doc>, o: Order, t: Seq<usize>, x: usize, i: int)
    requires
        0 <= i <= t.len(),
        forall|k: int| 0 <= k < i ==> !before(o, ds[x as int], #[trigger] ds[t[k] as int]),
    ensures
        i <= first_before(ds, o, t, x, i) <= t.len(),
        forall|k: int| 0 <= k < first_before(ds, o, t, x, i) ==> !before(o, ds[x as int], #[trigger] ds[t[k] as int]),
        first_before(ds, o, t, x, i) < t.len() ==> before(o, ds[x as int], ds[t[first_before(ds, o, t, x, i)] as int]),
    decreases t.len() - i,
{
    if i < t.len() && !before(o, ds[x as int], ds[t[i] as int]) {
        lemma_first_before(ds, o, t, x, i + 1);
    }
}

} // verus!
