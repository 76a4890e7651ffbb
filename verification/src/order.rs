//! Ordering docs for listings: by title, date or updated, ascending or
//! descending, optionally with an `id_path` tiebreak; and the stable
//! insertion sort that listings use.

use vstd::prelude::*;
use crate::date::{date_less, date_lt, date_same};
use crate::doc::Doc;
use crate::query::{OrderKey, SortDir};
use crate::text::{
    chars_lt, chars_of, lemma_path_lt_irrefl, lemma_path_lt_total, lemma_path_lt_trans, lemma_seq_lt_irrefl,
    lemma_seq_lt_total, lemma_seq_lt_trans, path_lt, path_str_lt, seq_lt,
};

verus! {

broadcast use vstd::std_specs::vec::group_vec_axioms;

/// How a listing is ordered. With `tiebreak`, docs equal on the key are
/// ordered by ascending `id_path`; without it, they keep their input order.
#[derive(Clone, Copy)]
pub struct Order {
    pub key: OrderKey,
    pub dir: SortDir,
    pub tiebreak: bool,
}

/// `a`'s key is strictly less than `b`'s.
pub open spec fn key_lt(k: OrderKey, a: Doc, b: Doc) -> bool {
    match k {
        OrderKey::Title => seq_lt(a.title@, b.title@),
        OrderKey::Date => date_lt(a.date, b.date),
        OrderKey::Updated => date_lt(a.updated, b.updated),
    }
}

/// `a` and `b` have equal keys.
pub open spec fn key_eq(k: OrderKey, a: Doc, b: Doc) -> bool {
    match k {
        OrderKey::Title => a.title@ == b.title@,
        OrderKey::Date => date_same(a.date, b.date),
        OrderKey::Updated => date_same(a.updated, b.updated),
    }
}

/// `a` sorts strictly before `b`.
pub open spec fn before(o: Order, a: Doc, b: Doc) -> bool {
    ||| (o.dir == SortDir::Asc && key_lt(o.key, a, b))
    ||| (o.dir == SortDir::Desc && key_lt(o.key, b, a))
    ||| (o.tiebreak && key_eq(o.key, a, b) && path_lt(a.id_path@, b.id_path@))
}

proof fn lemma_key_facts(k: OrderKey, a: Doc, b: Doc, c: Doc)
    ensures
        !key_lt(k, a, a),
        key_eq(k, a, a),
        key_eq(k, a, b) ==> key_eq(k, b, a) && !key_lt(k, a, b),
        key_eq(k, a, b) && key_eq(k, b, c) ==> key_eq(k, a, c),
        key_lt(k, a, b) || key_lt(k, b, a) || key_eq(k, a, b),
        !(key_lt(k, a, b) && key_lt(k, b, a)),
        key_lt(k, a, b) && key_lt(k, b, c) ==> key_lt(k, a, c),
        key_lt(k, a, b) && key_eq(k, b, c) ==> key_lt(k, a, c),
        key_eq(k, a, b) && key_lt(k, b, c) ==> key_lt(k, a, c),
{
    match k {
        OrderKey::Title => {
            lemma_seq_lt_irrefl(a.title@);
            lemma_seq_lt_total(a.title@, b.title@);
            if seq_lt(a.title@, b.title@) && seq_lt(b.title@, c.title@) {
                lemma_seq_lt_trans(a.title@, b.title@, c.title@);
            }
        },
        _ => {},
    }
}

/// `before` is a strict order: irreflexive, asymmetric, transitive.
pub proof fn lemma_before(o: Order, a: Doc, b: Doc, c: Doc)
    ensures
        !before(o, a, a),
        !(before(o, a, b) && before(o, b, a)),
        before(o, a, b) && before(o, b, c) ==> before(o, a, c),
{
    lemma_key_facts(o.key, a, b, c);
    lemma_key_facts(o.key, b, a, c);
    lemma_key_facts(o.key, a, c, b);
    lemma_key_facts(o.key, b, c, a);
    lemma_key_facts(o.key, c, b, a);
    lemma_key_facts(o.key, c, a, b);
    lemma_path_lt_irrefl(a.id_path@);
    lemma_path_lt_total(a.id_path@, b.id_path@);
    if path_lt(a.id_path@, b.id_path@) && path_lt(b.id_path@, c.id_path@) {
        lemma_path_lt_trans(a.id_path@, b.id_path@, c.id_path@);
    }
}

/// `before` is a strict weak order: if `a` sorts before `b`, any `c` sorts
/// after `a` or before `b`.
pub proof fn lemma_before_weak(o: Order, a: Doc, b: Doc, c: Doc)
    ensures
        before(o, a, b) ==> before(o, a, c) || before(o, c, b),
{
    lemma_key_facts(o.key, a, b, c);
    lemma_key_facts(o.key, b, a, c);
    lemma_key_facts(o.key, a, c, b);
    lemma_key_facts(o.key, b, c, a);
    lemma_key_facts(o.key, c, b, a);
    lemma_key_facts(o.key, c, a, b);
    lemma_path_lt_total(a.id_path@, c.id_path@);
    lemma_path_lt_total(c.id_path@, b.id_path@);
    lemma_path_lt_irrefl(a.id_path@);
    if path_lt(a.id_path@, b.id_path@) && path_lt(b.id_path@, c.id_path@) {
        lemma_path_lt_trans(a.id_path@, b.id_path@, c.id_path@);
    }
    if path_lt(c.id_path@, a.id_path@) && path_lt(a.id_path@, b.id_path@) {
        lemma_path_lt_trans(c.id_path@, a.id_path@, b.id_path@);
    }
}

/// Does `a` sort strictly before `b`?
pub fn doc_before(o: Order, a: &Doc, b: &Doc) -> (r: bool)
    ensures
        r == before(o, *a, *b),
{
    let lt_ab = key_less(o.key, a, b);
    let lt_ba = key_less(o.key, b, a);
    let primary = match o.dir {
        SortDir::Asc => lt_ab,
        SortDir::Desc => lt_ba,
    };
    if primary {
        return true;
    }
    if !o.tiebreak || lt_ab || lt_ba {
        proof { lemma_key_facts(o.key, *a, *b, *a); }
        return false;
    }
    proof { lemma_key_facts(o.key, *a, *b, *a); }
    path_str_lt(a.id_path.as_str(), b.id_path.as_str())
}

/// `a`'s key is strictly less than `b`'s.
fn key_less(k: OrderKey, a: &Doc, b: &Doc) -> (r: bool)
    ensures
        r == key_lt(k, *a, *b),
{
    match k {
        OrderKey::Title => chars_lt(&chars_of(a.title.as_str()), &chars_of(b.title.as_str())),
        OrderKey::Date => date_less(&a.date, &b.date),
        OrderKey::Updated => date_less(&a.updated, &b.updated),
    }
}

/// The docs of a sorted map of docs, without their keys.
pub open spec fn docs_of(v: Seq<(String, Doc)>) -> Seq<Doc> {
    v.map_values(|p: (String, Doc)| p.1)
}

/// Insert position `x` into the sorted `s`: after every entry it does not
/// sort strictly before, so equal entries keep their input order.
pub open spec fn ins(ds: Seq<Doc>, o: Order, s: Seq<usize>, x: usize) -> Seq<usize>
    decreases s.len(),
{
    if s.len() == 0 {
        seq![x]
    } else if before(o, ds[x as int], ds[s[0] as int]) {
        seq![x] + s
    } else {
        seq![s[0]] + ins(ds, o, s.drop_first(), x)
    }
}

/// Stable insertion sort of positions `s` into `ds`.
pub open spec fn sort_spec(ds: Seq<Doc>, o: Order, s: Seq<usize>) -> Seq<usize>
    decreases s.len(),
{
    if s.len() == 0 {
        s
    } else {
        ins(ds, o, sort_spec(ds, o, s.drop_last()), s.last())
    }
}

/// No entry sorts strictly before an earlier one.
pub open spec fn sorted_by(ds: Seq<Doc>, o: Order, s: Seq<usize>) -> bool {
    forall|i: int, j: int| 0 <= i < j < s.len() ==> !before(o, #[trigger] ds[s[j] as int], #[trigger] ds[s[i] as int])
}

/// `ins` puts `x` at the first position whose entry it sorts before.
pub proof fn lemma_ins_at(ds: Seq<Doc>, o: Order, s: Seq<usize>, x: usize, p: int)
    requires
        0 <= p <= s.len(),
        forall|i: int| 0 <= i < p ==> !before(o, ds[x as int], #[trigger] ds[s[i] as int]),
        p < s.len() ==> before(o, ds[x as int], ds[s[p] as int]),
    ensures
        ins(ds, o, s, x) == s.insert(p, x),
    decreases s.len(),
{
    if s.len() == 0 {
        assert(s.insert(p, x) =~= seq![x]);
    } else if p == 0 {
        assert(s.insert(0, x) =~= seq![x] + s);
    } else {
        assert(!before(o, ds[x as int], ds[s[0] as int]));
        let t = s.drop_first();
        assert forall|i: int| 0 <= i < p - 1 implies !before(o, ds[x as int], #[trigger] ds[t[i] as int]) by {
            assert(t[i] == s[i + 1]);
        }
        lemma_ins_at(ds, o, t, x, p - 1);
        assert(seq![s[0]] + t.insert(p - 1, x) =~= s.insert(p, x));
    }
}

/// Inserting at the first position whose entry `x` sorts before keeps the
/// sequence sorted.
pub proof fn lemma_insert_sorted(ds: Seq<Doc>, o: Order, s: Seq<usize>, x: usize, p: int)
    requires
        sorted_by(ds, o, s),
        0 <= p <= s.len(),
        forall|i: int| 0 <= i < p ==> !before(o, ds[x as int], #[trigger] ds[s[i] as int]),
        p < s.len() ==> before(o, ds[x as int], ds[s[p] as int]),
    ensures
        sorted_by(ds, o, s.insert(p, x)),
{
    let t = s.insert(p, x);
    assert forall|i: int, j: int| 0 <= i < j < t.len() implies !before(o, #[trigger] ds[t[j] as int], #[trigger] ds[t[i] as int]) by {
        if j < p {
            assert(t[i] == s[i] && t[j] == s[j]);
        } else if j == p {
            assert(t[i] == s[i]);
        } else if i < p {
            assert(t[i] == s[i] && t[j] == s[j - 1]);
        } else if i == p {
            assert(t[j] == s[j - 1]);
            lemma_before(o, ds[x as int], ds[s[p] as int], ds[s[j - 1] as int]);
            lemma_before(o, ds[s[j - 1] as int], ds[x as int], ds[s[p] as int]);
            if j - 1 > p {
                assert(!before(o, ds[s[j - 1] as int], ds[s[p] as int]));
            }
        } else {
            assert(t[i] == s[i - 1] && t[j] == s[j - 1]);
        }
    }
}

/// Sort positions `s` into `docs` stably by `o`.
pub fn sort_positions(docs: &Vec<(String, Doc)>, o: Order, s: &Vec<usize>) -> (r: Vec<usize>)
    requires
        forall|i: int| 0 <= i < s@.len() ==> #[trigger] s@[i] < docs@.len(),
    ensures
        r@ == sort_spec(docs_of(docs@), o, s@),
        sorted_by(docs_of(docs@), o, r@),
        forall|i: int| 0 <= i < r@.len() ==> #[trigger] r@[i] < docs@.len(),
{
    let ghost ds = docs_of(docs@);
    let mut out: Vec<usize> = Vec::new();
    let mut i: usize = 0;
    proof { assert(s@.take(0) =~= Seq::<usize>::empty()); }
    while i < s.len()
        invariant
            i <= s.len(),
            ds == docs_of(docs@),
            out@ == sort_spec(ds, o, s@.take(i as int)),
            sorted_by(ds, o, out@),
            forall|k: int| 0 <= k < s@.len() ==> #[trigger] s@[k] < docs@.len(),
            forall|k: int| 0 <= k < out@.len() ==> #[trigger] out@[k] < docs@.len(),
        decreases s.len() - i,
    {
        let x = s[i];
        let mut p: usize = 0;
        let mut found = false;
        while p < out.len() && !found
            invariant
                p <= out.len(),
                ds == docs_of(docs@),
                x < docs@.len(),
                forall|k: int| 0 <= k < out@.len() ==> #[trigger] out@[k] < docs@.len(),
                found ==> p < out.len() && before(o, ds[x as int], ds[out@[p as int] as int]),
                forall|k: int| 0 <= k < p ==> !before(o, ds[x as int], #[trigger] ds[out@[k] as int]),
            decreases out.len() - p + if found { 0int } else { 1int },
        {
            let y = out[p];
            proof {
                assert(ds[x as int] == docs@[x as int].1);
                assert(ds[y as int] == docs@[y as int].1);
            }
            if doc_before(o, &docs[x].1, &docs[y].1) {
                found = true;
            } else {
                p += 1;
            }
        }
        proof {
            lemma_ins_at(ds, o, out@, x, p as int);
            lemma_insert_sorted(ds, o, out@, x, p as int);
            assert(s@.take(i + 1).drop_last() == s@.take(i as int));
            assert(s@.take(i + 1).last() == x);
        }
        let ghost prev = out@;
        out.insert(p, x);
        proof {
            assert forall|k: int| 0 <= k < out@.len() implies #[trigger] out@[k] < docs@.len() by {
                if k < p {
                    assert(out@[k] == prev[k]);
                } else if k > p {
                    assert(out@[k] == prev[k - 1]);
                }
            }
        }
        i += 1;
    }
    proof { assert(s@.take(s.len() as int) == s@); }
    out
}

} // verus!
