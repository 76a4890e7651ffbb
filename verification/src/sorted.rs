//! String-keyed maps kept as vectors sorted by key: iteration is in key
//! order (the order a `BTreeMap<String, _>` gives) and each key occurs once.

use vstd::prelude::*;
use crate::text::{path_chars_lt, chars_of, lemma_path_lt_irrefl, lemma_path_lt_total, lemma_path_lt_trans, path_lt, str_eq};

verus! {

broadcast use vstd::std_specs::vec::group_vec_axioms;

/// Keys strictly increase in `str` order.
pub open spec fn keys_sorted<V>(s: Seq<(String, V)>) -> bool {
    forall|i: int, j: int| 0 <= i < j < s.len() ==> path_lt(#[trigger] s[i].0@, #[trigger] s[j].0@)
}

/// Some entry has key `k`.
pub open spec fn has_key<V>(s: Seq<(String, V)>, k: Seq<char>) -> bool {
    exists|i: int| 0 <= i < s.len() && (#[trigger] s[i]).0@ == k
}

/// The value under key `k`.
pub open spec fn lookup<V>(s: Seq<(String, V)>, k: Seq<char>) -> Option<V> {
    if has_key(s, k) {
        Some(s[choose|i: int| 0 <= i < s.len() && (#[trigger] s[i]).0@ == k].1)
    } else {
        None
    }
}


/// In a sorted map the entry at `i` is the one found under its key.
pub proof fn lemma_lookup_at<V>(s: Seq<(String, V)>, i: int)
    requires
        keys_sorted(s),
        0 <= i < s.len(),
    ensures
        lookup(s, s[i].0@) == Some(s[i].1),
{
    assert(has_key(s, s[i].0@));
    let j = choose|j: int| 0 <= j < s.len() && (#[trigger] s[j]).0@ == s[i].0@;
    if j < i {
        assert(path_lt(s[j].0@, s[i].0@));
        lemma_path_lt_irrefl(s[i].0@);
    } else if j > i {
        assert(path_lt(s[i].0@, s[j].0@));
        lemma_path_lt_irrefl(s[i].0@);
    }
}

/// A lookup that succeeds names an entry of the map.
pub proof fn lemma_lookup_some<V>(s: Seq<(String, V)>, k: Seq<char>)
    requires
        keys_sorted(s),
        has_key(s, k),
    ensures
        exists|i: int| 0 <= i < s.len() && (#[trigger] s[i]).0@ == k && lookup(s, k) == Some(s[i].1),
{
    let i = choose|i: int| 0 <= i < s.len() && (#[trigger] s[i]).0@ == k;
    lemma_lookup_at(s, i);
}

/// Where `k` is or would go: `(found, pos)` with every key before `pos` less
/// than `k`, and the key at `pos` (if any) not less than `k`.
pub fn find_slot<V>(v: &Vec<(String, V)>, k: &str) -> (r: (bool, usize))
    requires
        keys_sorted(v@),
    ensures
        r.1 <= v@.len(),
        forall|i: int| 0 <= i < r.1 ==> path_lt((#[trigger] v@[i]).0@, k@),
        r.1 < v@.len() ==> !path_lt(v@[r.1 as int].0@, k@),
        r.0 <==> has_key(v@, k@),
        r.0 ==> r.1 < v@.len() && v@[r.1 as int].0@ == k@,
{
    let kc = chars_of(k);
    let mut i: usize = 0;
    while i < v.len()
        invariant
            i <= v@.len(),
            kc@ == k@,
            forall|j: int| 0 <= j < i ==> path_lt((#[trigger] v@[j]).0@, k@),
        ensures
            i <= v@.len(),
            forall|j: int| 0 <= j < i ==> path_lt((#[trigger] v@[j]).0@, k@),
            i < v@.len() ==> !path_lt(v@[i as int].0@, k@),
        decreases v.len() - i,
    {
        let kk = chars_of(v[i].0.as_str());
        if !path_chars_lt(&kk, &kc) {
            break;
        }
        i += 1;
    }
    let found = i < v.len() && str_eq(v[i].0.as_str(), k);
    proof {
        if has_key(v@, k@) {
            let j = choose|j: int| 0 <= j < v@.len() && (#[trigger] v@[j]).0@ == k@;
            if j < i {
                lemma_path_lt_irrefl(k@);
            } else if j > i {
                assert(path_lt(v@[i as int].0@, v@[j].0@));
            }
        }
    }
    (found, i)
}

/// The value under `k`.
pub fn get<'a, V>(v: &'a Vec<(String, V)>, k: &str) -> (r: Option<&'a V>)
    requires
        keys_sorted(v@),
    ensures
        match r {
            Some(x) => lookup(v@, k@) == Some(*x),
            None => lookup(v@, k@) is None,
        },
{
    let (found, i) = find_slot(v, k);
    if found {
        proof { lemma_lookup_at(v@, i as int); }
        Some(&v[i].1)
    } else {
        None
    }
}

/// Inserting a new key at its slot keeps the map sorted and adds exactly that
/// key.
proof fn lemma_insert_at<V>(s: Seq<(String, V)>, p: int, e: (String, V))
    requires
        keys_sorted(s),
        0 <= p <= s.len(),
        forall|i: int| 0 <= i < p ==> path_lt((#[trigger] s[i]).0@, e.0@),
        p < s.len() ==> path_lt(e.0@, s[p].0@),
    ensures
        keys_sorted(s.insert(p, e)),
        forall|x: Seq<char>| #[trigger] lookup(s.insert(p, e), x) == if x == e.0@ {
            Some(e.1)
        } else {
            lookup(s, x)
        },
{
    let t = s.insert(p, e);
    assert forall|i: int, j: int| 0 <= i < j < t.len() implies path_lt(#[trigger] t[i].0@, #[trigger] t[j].0@) by {
        if j < p {
            assert(t[i] == s[i] && t[j] == s[j]);
        } else if j == p {
            assert(t[i] == s[i]);
        } else if i < p {
            assert(t[i] == s[i] && t[j] == s[j - 1]);
            if p < s.len() {
                if j - 1 > p {
                    assert(path_lt(s[p].0@, s[j - 1].0@));
                    lemma_path_lt_trans(e.0@, s[p].0@, s[j - 1].0@);
                }
                lemma_path_lt_trans(s[i].0@, e.0@, s[j - 1].0@);
            }
        } else if i == p {
            assert(t[j] == s[j - 1]);
            if j - 1 > p {
                assert(path_lt(s[p].0@, s[j - 1].0@));
                lemma_path_lt_trans(e.0@, s[p].0@, s[j - 1].0@);
            }
        } else {
            assert(t[i] == s[i - 1] && t[j] == s[j - 1]);
        }
    }
    assert forall|x: Seq<char>| #[trigger] lookup(t, x) == if x == e.0@ { Some(e.1) } else { lookup(s, x) } by {
        if x == e.0@ {
            assert(t[p] == e);
            lemma_lookup_at(t, p);
        } else if has_key(s, x) {
            let i = choose|i: int| 0 <= i < s.len() && (#[trigger] s[i]).0@ == x;
            lemma_lookup_at(s, i);
            if i < p {
                assert(t[i] == s[i]);
                lemma_lookup_at(t, i);
            } else {
                assert(t[i + 1] == s[i]);
                lemma_lookup_at(t, i + 1);
            }
        } else {
            if has_key(t, x) {
                let i = choose|i: int| 0 <= i < t.len() && (#[trigger] t[i]).0@ == x;
                if i < p {
                    assert(t[i] == s[i]);
                } else if i > p {
                    assert(t[i] == s[i - 1]);
                }
            }
        }
    }
}

/// Insert `(k, val)` unless `k` is already present (the first write wins).
pub fn insert_absent<V>(v: &mut Vec<(String, V)>, k: String, val: V)
    requires
        keys_sorted(old(v)@),
    ensures
        keys_sorted(final(v)@),
        has_key(old(v)@, k@) ==> final(v)@ == old(v)@,
        !has_key(old(v)@, k@) ==> final(v)@.len() == old(v)@.len() + 1,
        forall|x: Seq<char>| #[trigger] lookup(final(v)@, x) == if x == k@ && !has_key(old(v)@, k@) {
            Some(val)
        } else {
            lookup(old(v)@, x)
        },
{
    let (found, p) = find_slot(v, k.as_str());
    if !found {
        proof {
            if p < v@.len() {
                lemma_path_lt_total(v@[p as int].0@, k@);
            }
            lemma_insert_at(v@, p as int, (k, val));
        }
        v.insert(p, (k, val));
    }
}

/// Insert `(k, val)`, replacing the value of an existing `k`.
pub fn upsert<V>(v: &mut Vec<(String, V)>, k: String, val: V)
    requires
        keys_sorted(old(v)@),
    ensures
        keys_sorted(final(v)@),
        final(v)@.len() == old(v)@.len() + if has_key(old(v)@, k@) { 0int } else { 1int },
        forall|x: Seq<char>| #[trigger] lookup(final(v)@, x) == if x == k@ {
            Some(val)
        } else {
            lookup(old(v)@, x)
        },
{
    let (found, p) = find_slot(v, k.as_str());
    if !found {
        proof {
            if p < v@.len() {
                lemma_path_lt_total(v@[p as int].0@, k@);
            }
            lemma_insert_at(v@, p as int, (k, val));
        }
        v.insert(p, (k, val));
    } else {
        let ghost s = v@;
        let ghost e = (k, val);
        v.set(p, (k, val));
        proof {
            let t = s.update(p as int, e);
            assert(t == v@);
            assert forall|i: int, j: int| 0 <= i < j < t.len() implies path_lt(#[trigger] t[i].0@, #[trigger] t[j].0@) by {
                assert(t[i].0@ == s[i].0@ && t[j].0@ == s[j].0@);
            }
            assert forall|x: Seq<char>| #[trigger] lookup(t, x) == if x == e.0@ { Some(e.1) } else { lookup(s, x) } by {
                if x == e.0@ {
                    lemma_lookup_at(t, p as int);
                } else if has_key(s, x) {
                    let i = choose|i: int| 0 <= i < s.len() && (#[trigger] s[i]).0@ == x;
                    lemma_lookup_at(s, i);
                    assert(t[i] == s[i]);
                    lemma_lookup_at(t, i);
                } else if has_key(t, x) {
                    let i = choose|i: int| 0 <= i < t.len() && (#[trigger] t[i]).0@ == x;
                    if i != p {
                        assert(t[i] == s[i]);
                    }
                }
            }
        }
    }
}

} // verus!
