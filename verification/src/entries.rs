//! The `entries` template filter: the entries of a map as a list, ordered by
//! key, ascending unless `sort="desc"` is asked for.

use vstd::prelude::*;
use crate::query::SortDir;
use crate::text::{chars_lt, chars_of, lemma_seq_lt_irrefl, lemma_seq_lt_total, lemma_seq_lt_trans, seq_lt};

verus! {

broadcast use vstd::std_specs::vec::group_vec_axioms;

/// The direction named by the filter's `sort` argument: absent or `asc` is
/// ascending, `desc` descending; anything else is refused.
pub open spec fn sort_dir_spec(arg: Option<Seq<char>>) -> Option<SortDir> {
    match arg {
        None => Some(SortDir::Asc),
        Some(s) => if s == "asc"@ {
            Some(SortDir::Asc)
        } else if s == "desc"@ {
            Some(SortDir::Desc)
        } else {
            None
        },
    }
}

/// Parse the `sort` argument; `None` for an unknown direction.
pub fn sort_dir(arg: Option<&str>) -> (r: Option<SortDir>)
    ensures
        r == sort_dir_spec(
            match arg {
                Some(s) => Some(s@),
                None => None,
            },
        ),
{
    match arg {
        None => Some(SortDir::Asc),
        Some(s) => {
            if crate::text::str_eq(s, "asc") {
                Some(SortDir::Asc)
            } else if crate::text::str_eq(s, "desc") {
                Some(SortDir::Desc)
            } else {
                proof {
                    reveal_strlit("asc");
                    reveal_strlit("desc");
                }
                None
            }
        },
    }
}

/// Keys as character sequences.
pub open spec fn keys_view(keys: Seq<String>) -> Seq<Seq<char>> {
    keys.map_values(|s: String| s@)
}

/// `r` lists each of `0..n` exactly once.
pub open spec fn is_order(r: Seq<usize>, n: int) -> bool {
    &&& r.len() == n
    &&& forall|a: int| 0 <= a < n ==> (#[trigger] r[a]) < n
    &&& forall|a: int, b: int| 0 <= a < b < n ==> #[trigger] r[a] != #[trigger] r[b]
}

/// The keys taken in the order `r` never go down.
pub open spec fn ascending(k: Seq<Seq<char>>, r: Seq<usize>) -> bool {
    forall|a: int, b: int|
        0 <= a < b < r.len() ==> !seq_lt(k[#[trigger] r[b] as int], k[#[trigger] r[a] as int])
}

/// The keys taken in the order `r` never go up.
pub open spec fn descending(k: Seq<Seq<char>>, r: Seq<usize>) -> bool {
    forall|a: int, b: int|
        0 <= a < b < r.len() ==> !seq_lt(k[#[trigger] r[a] as int], k[#[trigger] r[b] as int])
}

/// Below `y` and not above `z`'s bound: `x < y` and `z >= y` give `z >= x`.
proof fn lemma_not_below(x: Seq<char>, y: Seq<char>, z: Seq<char>)
    requires
        seq_lt(x, y),
        !seq_lt(z, y),
    ensures
        !seq_lt(z, x),
{
    lemma_seq_lt_total(z, y);
    if seq_lt(z, x) {
        if z == y {
            lemma_seq_lt_total(x, y);
        } else {
            lemma_seq_lt_trans(z, x, y);
        }
    }
}

/// Each key as characters.
fn key_chars(keys: &Vec<String>) -> (r: Vec<Vec<char>>)
    ensures
        r@.len() == keys@.len(),
        forall|j: int| 0 <= j < keys@.len() ==> (#[trigger] r@[j])@ == keys@[j]@,
{
    let mut r: Vec<Vec<char>> = Vec::new();
    let mut i: usize = 0;
    while i < keys.len()
        invariant
            i <= keys@.len(),
            r@.len() == i,
            forall|j: int| 0 <= j < i ==> (#[trigger] r@[j])@ == keys@[j]@,
        decreases keys.len() - i,
    {
        r.push(chars_of(keys[i].as_str()));
        i += 1;
    }
    r
}

/// Positions of `keys` in ascending key order (insertion sort; equal keys
/// keep their input order).
fn ascending_order(keys: &Vec<String>) -> (r: Vec<usize>)
    ensures
        is_order(r@, keys@.len() as int),
        ascending(keys_view(keys@), r@),
{
    let ghost k = keys_view(keys@);
    let kc = key_chars(keys);
    let n = keys.len();
    let mut out: Vec<usize> = Vec::new();
    let mut i: usize = 0;
    while i < n
        invariant
            i <= n,
            n == keys@.len(),
            k == keys_view(keys@),
            kc@.len() == n,
            forall|j: int| 0 <= j < n ==> (#[trigger] kc@[j])@ == k[j],
            is_order(out@, i as int),
            ascending(k, out@),
        decreases n - i,
    {
        let mut p: usize = 0;
        while p < out.len() && !chars_lt(&kc[i], &kc[out[p]])
            invariant
                i < n,
                n == keys@.len(),
                kc@.len() == n,
                forall|j: int| 0 <= j < n ==> (#[trigger] kc@[j])@ == k[j],
                is_order(out@, i as int),
                p <= out@.len(),
                forall|q: int| 0 <= q < p ==> !seq_lt(k[i as int], k[#[trigger] out@[q] as int]),
            decreases out.len() - p,
        {
            p += 1;
        }
        let ghost old_out = out@;
        proof {
            old_out.insert_ensures(p as int, i);
            if p < old_out.len() {
                assert(seq_lt(k[i as int], k[old_out[p as int] as int]));
            }
        }
        out.insert(p, i);
        proof {
            let o = out@;
            assert(o == old_out.insert(p as int, i));
            assert forall|a: int| 0 <= a < i + 1 implies (#[trigger] o[a]) < i + 1 by {
                if a > p {
                    assert(o[a] == old_out[a - 1]);
                }
            }
            assert forall|a: int, b: int| 0 <= a < b < i + 1 implies #[trigger] o[a] != #[trigger] o[b] by {
                if a < p && b < p {
                } else if a < p && b == p {
                    assert(old_out[a] < i);
                } else if a < p {
                    assert(o[b] == old_out[b - 1]);
                } else if a == p {
                    assert(o[b] == old_out[b - 1]);
                    assert(old_out[b - 1] < i);
                } else {
                    assert(o[a] == old_out[a - 1]);
                    assert(o[b] == old_out[b - 1]);
                }
            }
            assert forall|a: int, b: int| 0 <= a < b < o.len() implies !seq_lt(
                k[#[trigger] o[b] as int],
                k[#[trigger] o[a] as int],
            ) by {
                if a < p && b < p {
                    assert(!seq_lt(k[old_out[b] as int], k[old_out[a] as int]));
                } else if a < p && b == p {
                    assert(!seq_lt(k[i as int], k[old_out[a] as int]));
                } else if a < p {
                    assert(o[b] == old_out[b - 1]);
                    assert(!seq_lt(k[old_out[b - 1] as int], k[old_out[a] as int]));
                } else if a == p {
                    assert(o[b] == old_out[b - 1]);
                    let y = k[old_out[p as int] as int];
                    let z = k[old_out[b - 1] as int];
                    if b - 1 > p {
                        assert(!seq_lt(z, y));
                    } else {
                        lemma_seq_lt_irrefl(y);
                    }
                    lemma_not_below(k[i as int], y, z);
                } else {
                    assert(o[a] == old_out[a - 1]);
                    assert(o[b] == old_out[b - 1]);
                    assert(!seq_lt(k[old_out[b - 1] as int], k[old_out[a - 1] as int]));
                }
            }
        }
        i += 1;
    }
    out
}

/// The positions of a map's `keys` in the order the `entries` filter lists
/// them: by key, ascending or descending.
pub fn entry_order(keys: &Vec<String>, dir: SortDir) -> (r: Vec<usize>)
    ensures
        is_order(r@, keys@.len() as int),
        dir == SortDir::Asc ==> ascending(keys_view(keys@), r@),
        dir == SortDir::Desc ==> descending(keys_view(keys@), r@),
{
    let asc = ascending_order(keys);
    match dir {
        SortDir::Asc => asc,
        SortDir::Desc => {
            let n = asc.len();
            let mut r: Vec<usize> = Vec::new();
            let mut j: usize = 0;
            while j < n
                invariant
                    j <= n,
                    n == asc@.len(),
                    r@.len() == j,
                    forall|a: int| 0 <= a < j ==> #[trigger] r@[a] == asc@[n - 1 - a],
                decreases n - j,
            {
                r.push(asc[n - 1 - j]);
                j += 1;
            }
            proof {
                let k = keys_view(keys@);
                assert forall|a: int, b: int| 0 <= a < b < n implies #[trigger] r@[a] != #[trigger] r@[b] by {
                    assert(asc@[n - 1 - b] != asc@[n - 1 - a]);
                }
                assert forall|a: int| 0 <= a < n implies (#[trigger] r@[a]) < n by {
                    assert(asc@[n - 1 - a] < n);
                }
                assert forall|a: int, b: int| 0 <= a < b < r@.len() implies !seq_lt(
                    k[#[trigger] r@[a] as int],
                    k[#[trigger] r@[b] as int],
                ) by {
                    assert(!seq_lt(k[asc@[n - 1 - a] as int], k[asc@[n - 1 - b] as int]));
                }
            }
            r
        },
    }
}

} // verus!
