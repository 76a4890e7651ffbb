//! HTML/XML escaping.

use vstd::prelude::*;
use crate::text::{chars_of, is_whitespace, is_ws, push_char, push_range, trim_end_ws};

verus! {

/// The escaped form of one character.
pub open spec fn escape_char(c: char) -> Seq<char> {
    if c == '&' { "&amp;"@ }
    else if c == '<' { "&lt;"@ }
    else if c == '>' { "&gt;"@ }
    else if c == '"' { "&quot;"@ }
    else if c == '\'' { "&#39;"@ }
    else { seq![c] }
}

/// The escaped form of a whole string: each character escaped in turn.
pub open spec fn escape_spec(s: Seq<char>) -> Seq<char>
    decreases s.len(),
{
    if s.len() == 0 { Seq::empty() } else { escape_spec(s.drop_last()) + escape_char(s.last()) }
}

/// Escape the five XML/HTML special characters so a string can be safely
/// embedded in attribute values or element text.
pub fn escape(s: &str) -> (r: String)
    ensures
        r@ == escape_spec(s@),
{
    let cs = chars_of(s);
    let mut out = String::new();
    let mut i: usize = 0;
    while i < cs.len()
        invariant
            i <= cs.len(),
            cs@ == s@,
            out@ == escape_spec(s@.take(i as int)),
        decreases cs.len() - i,
    {
        let c = cs[i];
        proof {
            assert(s@.take(i as int + 1).drop_last() == s@.take(i as int));
        }
        if c == '&' { out.append("&amp;"); }
        else if c == '<' { out.append("&lt;"); }
        else if c == '>' { out.append("&gt;"); }
        else if c == '"' { out.append("&quot;"); }
        else if c == '\'' { out.append("&#39;"); }
        else { push_char(&mut out, c); }
        i += 1;
    }
    proof { assert(s@.take(cs.len() as int) == s@); }
    out
}

// ---------------------------------------------------------------------------
// Plain-text excerpts
// ---------------------------------------------------------------------------

/// The text outside tags: a `<` opens a tag that runs through the next `>`;
/// an unclosed `<` hides the rest of the text.
pub open spec fn strip_tags_spec(s: Seq<char>) -> Seq<char>
    decreases s.len(),
{
    if s.len() == 0 {
        s
    } else {
        let (kept, in_tag) = strip_state(s.drop_last());
        if in_tag || s.last() == '<' {
            kept
        } else {
            kept.push(s.last())
        }
    }
}

/// The text kept so far, and whether the scan is inside a tag.
pub open spec fn strip_state(s: Seq<char>) -> (Seq<char>, bool)
    decreases s.len(),
{
    if s.len() == 0 {
        (s, false)
    } else {
        let (kept, in_tag) = strip_state(s.drop_last());
        let c = s.last();
        if in_tag {
            (kept, c != '>')
        } else if c == '<' {
            (kept, true)
        } else {
            (kept.push(c), false)
        }
    }
}

proof fn lemma_strip_spec(s: Seq<char>)
    ensures
        strip_tags_spec(s) == strip_state(s).0,
{
}

/// Remove HTML tags, keeping the text between them.
pub fn strip_tags(html: &str) -> (r: String)
    ensures
        r@ == strip_tags_spec(html@),
{
    let cs = chars_of(html);
    let mut out = String::new();
    let mut in_tag = false;
    let mut i: usize = 0;
    while i < cs.len()
        invariant
            i <= cs.len(),
            cs@ == html@,
            (out@, in_tag) == strip_state(html@.take(i as int)),
        decreases cs.len() - i,
    {
        proof { assert(html@.take(i + 1).drop_last() == html@.take(i as int)); }
        let c = cs[i];
        if in_tag {
            in_tag = c != '>';
        } else if c == '<' {
            in_tag = true;
        } else {
            push_char(&mut out, c);
        }
        i += 1;
    }
    proof {
        assert(html@.take(cs.len() as int) == html@);
        lemma_strip_spec(html@);
    }
    out
}

/// Last position below `k` holding whitespace.
pub open spec fn last_ws_before(s: Seq<char>, k: int) -> Option<int>
    decreases k,
{
    if k <= 0 || k > s.len() {
        None
    } else if is_ws(s[k - 1]) {
        Some(k - 1)
    } else {
        last_ws_before(s, k - 1)
    }
}

/// Text of at most `max` characters cut at a word boundary: unchanged when it
/// fits; otherwise the first `max - 1` characters cut back to their last
/// whitespace (trailing whitespace dropped), followed by `…`.
pub open spec fn truncate_words_spec(s: Seq<char>, max: nat) -> Seq<char> {
    if s.len() <= max {
        s
    } else {
        let t = if max == 0 { Seq::empty() } else { s.take(max - 1) };
        let kept = match last_ws_before(t, t.len() as int) {
            Some(k) => trim_end_ws(t.take(k)),
            None => t,
        };
        kept.push('\u{2026}')
    }
}

proof fn lemma_trim_end_ws_len(s: Seq<char>)
    ensures
        trim_end_ws(s).len() <= s.len(),
    decreases s.len(),
{
    if s.len() > 0 && is_ws(s.last()) {
        lemma_trim_end_ws_len(s.drop_last());
    }
}

proof fn lemma_last_ws_before(s: Seq<char>, k: int)
    requires
        0 <= k <= s.len(),
    ensures
        last_ws_before(s, k) matches Some(j) ==> 0 <= j < k && is_ws(s[j]) && forall|m: int| j < m < k ==> !is_ws(s[m]),
        last_ws_before(s, k) is None ==> forall|m: int| 0 <= m < k ==> !is_ws(s[m]),
    decreases k,
{
    if k > 0 && !is_ws(s[k - 1]) {
        lemma_last_ws_before(s, k - 1);
    }
}

/// Length the `truncate_words` filter cuts at when none is given.
pub const TRUNCATE_WORDS_DEFAULT: usize = 250;

/// Shorten text to at most `max` characters at a word boundary, marking the
/// cut with `…`; text that fits is returned as it is.
pub fn truncate_words(text: &str, max: usize) -> (r: String)
    ensures
        r@ == truncate_words_spec(text@, max as nat),
        r@.len() <= max || (max == 0 && r@.len() == 1),
{
    let cs = chars_of(text);
    if cs.len() <= max {
        return String::from_str(text);
    }
    let n = if max == 0 { 0 } else { max - 1 };
    let ghost t = if max == 0 { Seq::<char>::empty() } else { text@.take(max - 1) };
    proof { assert(t =~= cs@.take(n as int)); }
    let mut k = n;
    while k > 0 && !is_whitespace(cs[k - 1])
        invariant
            k <= n < cs@.len(),
            t == cs@.take(n as int),
            last_ws_before(t, n as int) == last_ws_before(t, k as int),
        decreases k,
    {
        k -= 1;
    }
    let mut out = String::new();
    proof { lemma_last_ws_before(t, n as int); }
    if k == 0 {
        // no whitespace: a hard cut
        push_range(&mut out, &cs, 0, n);
        proof {
            assert(cs@.subrange(0, n as int) =~= t);
            assert(out@ =~= t);
        }
    } else {
        let mut e = k - 1;
        while e > 0 && is_whitespace(cs[e - 1])
            invariant
                e < k <= n,
                n < cs@.len(),
                t == cs@.take(n as int),
                trim_end_ws(t.take(k - 1)) == trim_end_ws(t.take(e as int)),
            decreases e,
        {
            proof { assert(t.take(e as int).drop_last() == t.take(e - 1)); }
            e -= 1;
        }
        proof {
            if e > 0 {
                assert(t.take(e as int).last() == cs@[e - 1]);
            }
            assert(trim_end_ws(t.take(e as int)) == t.take(e as int));
        }
        push_range(&mut out, &cs, 0, e);
        proof { assert(out@ =~= t.take(e as int)); }
    }
    proof {
        lemma_trim_end_ws_len(out@);
    }
    push_char(&mut out, '\u{2026}');
    out
}

} // verus!
