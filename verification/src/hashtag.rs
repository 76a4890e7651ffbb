//! Inline `#hashtag` scanning over the text of a Markdown node.
//!
//! A tag is a `#` that sits at a word boundary — the start of the text or
//! right after whitespace, so `page#section` and `C#` are left alone —
//! followed by a run of `[A-Za-z0-9_\-/]` that contains at least one ASCII
//! letter (so a bare `#123` issue reference is ignored). The returned text is
//! that run with any leading/trailing `-`/`/` trimmed; the whole run (plus the
//! `#`) is removed from the text, collapsing one adjacent space so `a #foo b`
//! becomes `a b`.

use vstd::prelude::*;
use crate::text::{
    chars_of, is_ascii_alnum, is_ascii_alpha, is_ascii_alphabetic, is_ascii_alphanumeric,
    is_whitespace, is_ws, push_char, string_of_range,
};

verus! {

/// A character that may continue a hashtag.
pub open spec fn tag_char(c: char) -> bool {
    is_ascii_alnum(c) || c == '_' || c == '-' || c == '/'
}

/// `-` or `/`, the characters trimmed from both ends of a tag.
pub open spec fn is_ds(c: char) -> bool {
    c == '-' || c == '/'
}

/// `s` without its leading `-`/`/` run.
pub open spec fn trim_start_ds(s: Seq<char>) -> Seq<char>
    decreases s.len(),
{
    if s.len() > 0 && is_ds(s[0]) { trim_start_ds(s.drop_first()) } else { s }
}

/// `s` without its trailing `-`/`/` run.
pub open spec fn trim_end_ds(s: Seq<char>) -> Seq<char>
    decreases s.len(),
{
    if s.len() > 0 && is_ds(s.last()) { trim_end_ds(s.drop_last()) } else { s }
}

/// The tag text of a token: both ends trimmed of `-`/`/`.
pub open spec fn trim_tag(s: Seq<char>) -> Seq<char> {
    trim_end_ds(trim_start_ds(s))
}

/// `s` holds an ASCII letter.
pub open spec fn has_alpha(s: Seq<char>) -> bool {
    exists|i: int| 0 <= i < s.len() && is_ascii_alpha(#[trigger] s[i])
}

/// End of the run of tag characters starting at `j`.
pub open spec fn run_end(t: Seq<char>, j: int) -> int
    decreases t.len() - j,
{
    if j < 0 || j >= t.len() || !tag_char(t[j]) { j } else { run_end(t, j + 1) }
}

/// Position `i` of `t` opens a hashtag.
pub open spec fn tag_at(t: Seq<char>, i: int) -> bool {
    &&& 0 <= i < t.len()
    &&& t[i] == '#'
    &&& (i == 0 || is_ws(t[i - 1]))
    &&& run_end(t, i + 1) > i + 1
    &&& has_alpha(trim_tag(t.subrange(i + 1, run_end(t, i + 1))))
}

/// Where scanning resumes after the tag opened at `i`, given the output so
/// far: past the run, and past one whitespace character when the output is
/// empty or already ends in whitespace.
pub open spec fn resume_at(t: Seq<char>, i: int, out: Seq<char>) -> int {
    let j = run_end(t, i + 1);
    if (out.len() == 0 || is_ws(out.last())) && j < t.len() && is_ws(t[j]) { j + 1 } else { j }
}

/// Scan `t` from position `i`, with `out` the text kept so far: the final text
/// and the tags found from `i` on, in order.
pub open spec fn scan_from(t: Seq<char>, i: int, out: Seq<char>) -> (Seq<char>, Seq<Seq<char>>)
    decreases t.len() - i,
{
    if i < 0 || i >= t.len() {
        (out, Seq::empty())
    } else if tag_at(t, i) {
        proof {
            lemma_run_end(t, i + 1);
        }
        let rest = scan_from(t, resume_at(t, i, out), out);
        (rest.0, seq![trim_tag(t.subrange(i + 1, run_end(t, i + 1)))] + rest.1)
    } else {
        scan_from(t, i + 1, out.push(t[i]))
    }
}

/// A well-formed tag: non-empty, made of tag characters, holding an ASCII
/// letter, and neither starting nor ending with `-` or `/`.
pub open spec fn good_tag(g: Seq<char>) -> bool {
    &&& g.len() > 0
    &&& has_alpha(g)
    &&& forall|k: int| 0 <= k < g.len() ==> tag_char(#[trigger] g[k])
    &&& !is_ds(g[0])
    &&& !is_ds(g.last())
}

// ---------------------------------------------------------------------------
// Lemmas
// ---------------------------------------------------------------------------

pub proof fn lemma_run_end(t: Seq<char>, j: int)
    requires
        0 <= j <= t.len(),
    ensures
        j <= run_end(t, j) <= t.len(),
        forall|k: int| j <= k < run_end(t, j) ==> tag_char(t[k]),
        run_end(t, j) < t.len() ==> !tag_char(t[run_end(t, j)]),
    decreases t.len() - j,
{
    if j < t.len() && tag_char(t[j]) {
        lemma_run_end(t, j + 1);
    }
}

proof fn lemma_run_end_eq(t: Seq<char>, j: int, e: int)
    requires
        0 <= j <= e <= t.len(),
        forall|k: int| j <= k < e ==> tag_char(t[k]),
        e < t.len() ==> !tag_char(t[e]),
    ensures
        run_end(t, j) == e,
    decreases e - j,
{
    if j < e {
        lemma_run_end_eq(t, j + 1, e);
    }
}

proof fn lemma_trim_start_ds_skip(s: Seq<char>, i: int)
    requires
        0 <= i <= s.len(),
        forall|j: int| 0 <= j < i ==> is_ds(s[j]),
    ensures
        trim_start_ds(s) == trim_start_ds(s.skip(i)),
    decreases i,
{
    if i > 0 {
        lemma_trim_start_ds_skip(s.drop_first(), i - 1);
        assert(s.drop_first().skip(i - 1) == s.skip(i));
    } else {
        assert(s.skip(0) == s);
    }
}

proof fn lemma_trim_end_ds_take(s: Seq<char>, i: int)
    requires
        0 <= i <= s.len(),
        forall|j: int| i <= j < s.len() ==> is_ds(s[j]),
    ensures
        trim_end_ds(s) == trim_end_ds(s.take(i)),
    decreases s.len() - i,
{
    if i < s.len() {
        lemma_trim_end_ds_take(s.drop_last(), i);
        assert(s.drop_last().take(i) == s.take(i));
    } else {
        assert(s.take(i) == s);
    }
}

// ---------------------------------------------------------------------------
// Executable
// ---------------------------------------------------------------------------

/// A character that may continue a hashtag: ASCII alphanumeric, `_`, `-`, `/`.
pub fn is_tag_char(c: char) -> (r: bool)
    ensures
        r == tag_char(c),
{
    is_ascii_alphanumeric(c) || c == '_' || c == '-' || c == '/'
}

/// Bounds of the trimmed tag text inside the token `cs[a..b]`, and whether it
/// holds an ASCII letter.
fn trimmed_token(cs: &Vec<char>, a: usize, b: usize) -> (r: (usize, usize, bool))
    requires
        a <= b <= cs.len(),
    ensures
        a <= r.0 <= r.1 <= b,
        trim_tag(cs@.subrange(a as int, b as int)) == cs@.subrange(r.0 as int, r.1 as int),
        r.2 == has_alpha(cs@.subrange(r.0 as int, r.1 as int)),
        r.0 < r.1 ==> !is_ds(cs@[r.0 as int]) && !is_ds(cs@[r.1 - 1]),
{
    let ghost s = cs@.subrange(a as int, b as int);
    let mut x = a;
    while x < b && (cs[x] == '-' || cs[x] == '/')
        invariant
            a <= x <= b <= cs.len(),
            forall|j: int| a <= j < x ==> is_ds(cs@[j]),
        decreases b - x,
    {
        x += 1;
    }
    proof {
        lemma_trim_start_ds_skip(s, x - a);
        assert(s.skip(x - a) == cs@.subrange(x as int, b as int));
    }
    let mut y = b;
    while y > x && (cs[y - 1] == '-' || cs[y - 1] == '/')
        invariant
            a <= x <= y <= b <= cs.len(),
            forall|j: int| y <= j < b ==> is_ds(cs@[j]),
        decreases y,
    {
        y -= 1;
    }
    proof {
        let u = cs@.subrange(x as int, b as int);
        lemma_trim_end_ds_take(u, y - x);
        assert(u.take(y - x) == cs@.subrange(x as int, y as int));
        if x < y {
            if is_ds(cs@[x as int]) {
                // x stopped on a non-`-`/`/` character or at y
                assert(false);
            }
        }
    }
    let mut found = false;
    let mut z = x;
    while z < y
        invariant
            x <= z <= y <= cs.len(),
            found == exists|k: int| x <= k < z && is_ascii_alpha(#[trigger] cs@[k]),
        decreases y - z,
    {
        if is_ascii_alphabetic(cs[z]) {
            found = true;
        }
        z += 1;
    }
    proof {
        let g = cs@.subrange(x as int, y as int);
        if found {
            let k = choose|k: int| x <= k < y && is_ascii_alpha(#[trigger] cs@[k]);
            assert(g[k - x] == cs@[k]);
        }
        if has_alpha(g) {
            let k = choose|k: int| 0 <= k < g.len() && is_ascii_alpha(#[trigger] g[k]);
            assert(cs@[x + k] == g[k]);
        }
    }
    (x, y, found)
}

/// Walk `text`, pulling out hashtag tokens and returning the body with them
/// removed alongside the list of tag texts (leading `#` stripped, surrounding
/// `-`/`/` trimmed).
pub fn scan(text: &str) -> (r: (String, Vec<String>))
    ensures
        r.0@ == scan_from(text@, 0, Seq::empty()).0,
        r.1@.map_values(|g: String| g@) == scan_from(text@, 0, Seq::empty()).1,
        forall|k: int| 0 <= k < r.1@.len() ==> good_tag(#[trigger] r.1@[k]@),
{
    let chars = chars_of(text);
    let len = chars.len();
    let mut out = String::new();
    let mut tags: Vec<String> = Vec::new();
    let mut i: usize = 0;
    let ghost t = text@;
    while i < len
        invariant
            len == chars.len(),
            chars@ == t,
            t == text@,
            i <= len,
            scan_from(t, 0, Seq::empty()).0 == scan_from(t, i as int, out@).0,
            scan_from(t, 0, Seq::empty()).1 == tags@.map_values(|g: String| g@) + scan_from(
                t,
                i as int,
                out@,
            ).1,
            forall|k: int| 0 <= k < tags@.len() ==> good_tag(#[trigger] tags@[k]@),
        decreases len - i,
    {
        let c = chars[i];
        let at_boundary = i == 0 || is_whitespace(chars[i - 1]);
        if c == '#' && at_boundary {
            let mut j = i + 1;
            while j < len && is_tag_char(chars[j])
                invariant
                    i + 1 <= j <= len,
                    len == chars.len(),
                    forall|k: int| i + 1 <= k < j ==> tag_char(chars@[k]),
                decreases len - j,
            {
                j += 1;
            }
            proof { lemma_run_end_eq(t, i + 1, j as int); }
            let (x, y, alpha) = trimmed_token(&chars, i + 1, j);
            if j > i + 1 && alpha {
                let tag = string_of_range(&chars, x, y);
                proof {
                    assert(tag_at(t, i as int));
                    let g = tag@;
                    assert forall|k: int| 0 <= k < g.len() implies tag_char(#[trigger] g[k]) by {
                        assert(g[k] == chars@[x + k]);
                    }
                    if x == y {
                        assert(!has_alpha(g));
                    }
                    assert(g[0] == chars@[x as int]);
                    assert(g.last() == chars@[y - 1]);
                }
                let ghost before = tags@;
                tags.push(tag);
                proof {
                    assert(tags@.map_values(|g: String| g@) =~= before.map_values(|g: String| g@)
                        + seq![trim_tag(t.subrange(i + 1, j as int))]);
                    assert forall|k: int| 0 <= k < tags@.len() implies good_tag(
                        #[trigger] tags@[k]@,
                    ) by {
                        if k < before.len() {
                            assert(tags@[k] == before[k]);
                        }
                    }
                }
                let mut k = j;
                let out_cs = chars_of(out.as_str());
                let out_boundary = out_cs.len() == 0 || is_whitespace(out_cs[out_cs.len() - 1]);
                if out_boundary && k < len && is_whitespace(chars[k]) {
                    k += 1;
                }
                proof {
                    assert(resume_at(t, i as int, out@) == k);
                    let rest = scan_from(t, k as int, out@);
                    assert(scan_from(t, i as int, out@).1 == seq![trim_tag(t.subrange(i + 1, j as int))] + rest.1);
                    assert(tags@.map_values(|g: String| g@) + rest.1 == before.map_values(|g: String| g@) + (seq![trim_tag(t.subrange(i + 1, j as int))] + rest.1));
                }
                i = k;
                continue;
            } else {
                proof {
                    if tag_at(t, i as int) {
                        assert(run_end(t, i + 1) == j);
                    }
                    assert(!tag_at(t, i as int));
                }
            }
        } else {
            proof { assert(!tag_at(t, i as int)); }
        }
        push_char(&mut out, c);
        i += 1;
    }
    (out, tags)
}

} // verus!
