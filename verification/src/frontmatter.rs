//! Splitting a source file into its YAML frontmatter block and its body.
//!
//! A frontmatter block opens with a `---` line at the very start of the file
//! and closes at the next `---` line. A file that does not open with `---`, or
//! whose block is never closed, has no frontmatter: its whole text is the body.

use vstd::prelude::*;
use crate::text::{chars_of, occurs_at, occurs_at_exec, starts_with, starts_with_exec, string_of_range};

verus! {

/// The closing delimiter `\n---` stands at `k`, followed by a newline or by
/// the end of the text.
pub open spec fn closes_at(s: Seq<char>, k: int) -> bool {
    &&& occurs_at(s, seq!['\n', '-', '-', '-'], k)
    &&& (k + 4 == s.len() || (k + 4 < s.len() && s[k + 4] == '\n'))
}

/// First closing delimiter at or after `i`.
pub open spec fn close_from(s: Seq<char>, i: int) -> Option<int>
    decreases s.len() - i,
{
    if i < 0 || i >= s.len() {
        None
    } else if closes_at(s, i) {
        Some(i)
    } else {
        close_from(s, i + 1)
    }
}

/// `(yaml, body)` when `s` has a frontmatter block; `None` otherwise. The
/// search for the closing line starts at the newline that ends the opening
/// `---`, so an empty block `---\n---\n` is found.
pub open spec fn split_spec(s: Seq<char>) -> Option<(Seq<char>, Seq<char>)> {
    if !starts_with(s, seq!['-', '-', '-', '\n']) {
        None
    } else {
        match close_from(s, 3) {
            None => None,
            Some(k) => Some(
                (
                    if k < 4 { Seq::empty() } else { s.subrange(4, k) },
                    if k + 4 == s.len() { Seq::empty() } else { s.skip(k + 5) },
                ),
            ),
        }
    }
}

/// The first close found at or after `i` is a close, in range.
pub proof fn lemma_close_from(s: Seq<char>, i: int)
    requires
        0 <= i,
    ensures
        close_from(s, i) matches Some(k) ==> i <= k < s.len() && closes_at(s, k),
    decreases s.len() - i,
{
    if i < s.len() && !closes_at(s, i) {
        lemma_close_from(s, i + 1);
    }
}

/// Split `source` into its frontmatter text and its body. `None` when the
/// source has no (closed) frontmatter block, in which case the whole source
/// is the body.
pub fn split(source: &str) -> (r: Option<(String, String)>)
    ensures
        match r {
            Some((y, b)) => split_spec(source@) == Some((y@, b@)),
            None => split_spec(source@) is None,
        },
{
    let cs = chars_of(source);
    let open: Vec<char> = vec!['-', '-', '-', '\n'];
    let delim: Vec<char> = vec!['\n', '-', '-', '-'];
    proof {
        assert(open@ == seq!['-', '-', '-', '\n']);
        assert(delim@ == seq!['\n', '-', '-', '-']);
    }
    if !starts_with_exec(&cs, &open) {
        return None;
    }
    let n = cs.len();
    let mut k: usize = 3;
    while k < n
        invariant
            3 <= k <= n,
            n == cs@.len(),
            cs@ == source@,
            delim@ == seq!['\n', '-', '-', '-'],
            starts_with(cs@, seq!['-', '-', '-', '\n']),
            close_from(cs@, 3) == close_from(cs@, k as int),
        decreases n - k,
    {
        let here = occurs_at_exec(&cs, &delim, k) && (k + 4 == n || (k + 4 < n && cs[k + 4] == '\n'));
        if here {
            proof { assert(closes_at(cs@, k as int)); }
            let y = if k < 4 { String::new() } else { string_of_range(&cs, 4, k) };
            let b = if k + 4 == n { String::new() } else { string_of_range(&cs, k + 5, n) };
            proof {
                if k < 4 {
                    assert(y@ =~= Seq::<char>::empty());
                }
                if k + 4 != n {
                    assert(b@ =~= cs@.skip(k + 5));
                } else {
                    assert(b@ =~= Seq::<char>::empty());
                }
            }
            return Some((y, b));
        }
        k += 1;
    }
    None
}

} // verus!
