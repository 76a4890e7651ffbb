//! Build outputs and the write plan: the first output claiming a path wins,
//! later ones at the same path are skipped.

use vstd::prelude::*;
use crate::text::str_eq;

verus! {

broadcast use vstd::std_specs::vec::group_vec_axioms;

/// A file the build writes: its path under the output dir, its content and
/// the doc it came from.
pub struct Output {
    pub output_path: String,
    pub content: String,
    pub id_path: String,
}

/// The first output before `i` at the same path as output `i`.
pub open spec fn first_claim(paths: Seq<Seq<char>>, i: int) -> Option<int> {
    if exists|j: int| 0 <= j < i && paths[j] == paths[i] {
        Some(choose|j: int| 0 <= j < i && paths[j] == paths[i] && forall|k: int| 0 <= k < j ==> paths[k] != paths[i])
    } else {
        None
    }
}

/// Output paths, as plain values.
pub open spec fn paths_of(outputs: Seq<Output>) -> Seq<Seq<char>> {
    outputs.map_values(|o: Output| o.output_path@)
}

/// For each output, `None` when it is written, or `Some(j)` when output `j`,
/// the first to claim the same path, already was (first writer wins).
pub fn write_plan(outputs: &Vec<Output>) -> (r: Vec<Option<usize>>)
    ensures
        r@.len() == outputs@.len(),
        forall|i: int| 0 <= i < r@.len() ==> match #[trigger] r@[i] {
            Some(j) => first_claim(paths_of(outputs@), i) == Some(j as int),
            None => first_claim(paths_of(outputs@), i) is None,
        },
{
    let ghost ps = paths_of(outputs@);
    let mut plan: Vec<Option<usize>> = Vec::new();
    let mut i: usize = 0;
    while i < outputs.len()
        invariant
            i <= outputs@.len(),
            ps == paths_of(outputs@),
            plan@.len() == i,
            forall|k: int| 0 <= k < i ==> match #[trigger] plan@[k] {
                Some(j) => first_claim(ps, k) == Some(j as int),
                None => first_claim(ps, k) is None,
            },
        decreases outputs.len() - i,
    {
        let mut j: usize = 0;
        let mut found: Option<usize> = None;
        let mut done = false;
        while j < i && !done
            invariant
                j <= i < outputs@.len(),
                ps == paths_of(outputs@),
                done == (found is Some),
                forall|k: int| 0 <= k < j ==> ps[k] != ps[i as int],
                found matches Some(w) ==> w == j && j < i && ps[w as int] == ps[i as int],
            decreases i - j + if done { 0int } else { 1int },
        {
            if str_eq(outputs[j].output_path.as_str(), outputs[i].output_path.as_str()) {
                proof { assert(ps[j as int] == ps[i as int]); }
                found = Some(j);
                done = true;
            } else {
                j += 1;
            }
        }
        proof {
            match found {
                Some(w) => {
                    assert(0 <= w < i && ps[w as int] == ps[i as int] && forall|k: int| 0 <= k < w ==> ps[k] != ps[i as int]);
                    assert(exists|j: int| 0 <= j < i && ps[j] == ps[i as int]);
                    let c = choose|c: int| 0 <= c < i && ps[c] == ps[i as int] && forall|k: int| 0 <= k < c ==> ps[k] != ps[i as int];
                    assert(c == w as int) by {
                        if c < w {
                            assert(ps[c] != ps[i as int]);
                        } else if c > w {
                            assert(ps[w as int] != ps[i as int]);
                        }
                    }
                },
                None => {},
            }
        }
        plan.push(found);
        i += 1;
    }
    plan
}

} // verus!
