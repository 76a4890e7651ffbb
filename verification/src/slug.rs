//! Slugs, through the `slug` crate.

use vstd::prelude::*;

verus! {

/// What `slug::slugify` returns for a string (transliteration through
/// `deunicode`, lowercasing, runs of other characters collapsed to `-`).
pub uninterp spec fn slugify_spec(s: Seq<char>) -> Seq<char>;

/// A slug character: `a`-`z`, `0`-`9` or `-`.
pub open spec fn is_slug_char(c: char) -> bool {
    ('a' <= c && c <= 'z') || ('0' <= c && c <= '9') || c == '-'
}

/// Calls `slug::slugify`. The contract names the result `slugify_spec(s)` and
/// adds what the crate documents of every slug: only `a-z`, `0-9` and `-`,
/// never a leading or trailing `-`.
#[verifier::external_body]
pub(crate) fn slugify(s: &str) -> (r: String)
    ensures
        r@ == slugify_spec(s@),
        forall|i: int| 0 <= i < r@.len() ==> is_slug_char(#[trigger] r@[i]),
        r@.len() > 0 ==> r@[0] != '-' && r@.last() != '-',
{
    slug::slugify(s)
}

} // verus!
