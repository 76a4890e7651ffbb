//! Expanding `[[Wiki Link]]` and `[[Wiki Link|Display]]` in raw text. A
//! target resolves by slug against the stems of the docs in the source doc's
//! directory, then in each parent directory up to the root; the first match
//! wins. A resolved link becomes an anchor, an unresolved one a `nolink`
//! span; the ids of the resolved targets are collected once each.

use vstd::prelude::*;
use crate::doc::{Doc, DocMeta};
use crate::paths::{comps_eq, comps_view, components, parent_comps, parent_exec, path_components, Comp, PathComp};
use crate::permalink::{to_url, to_url_spec};
use crate::slug::{slugify, slugify_spec};
use crate::text::{
    chars_of, find_char_from, find_char_from_exec, find_from, find_from_exec, lemma_find_char_from,
    lemma_find_from_none, push_range, string_of_range, subvec, trim_ws, trim_ws_bounds,
};
use crate::wikilink::{dir_of, dir_of_exec, link_html, nolink_html, render_link, render_nolink, stem_key, stem_key_exec};

verus! {

broadcast use vstd::std_specs::vec::group_vec_axioms;

// ---------------------------------------------------------------------------
// Scanning
// ---------------------------------------------------------------------------

/// The `]]` closing a link whose text starts at or before `j`: the first
/// `]]` from `j` on, unless a newline or another `[` comes first.
pub open spec fn close_from(s: Seq<char>, j: int) -> Option<int>
    decreases s.len() - j,
{
    if j < 0 || j + 1 >= s.len() {
        None
    } else if s[j] == '\n' || s[j] == '[' {
        None
    } else if s[j] == ']' && s[j + 1] == ']' {
        Some(j)
    } else {
        close_from(s, j + 1)
    }
}

proof fn lemma_close_from(s: Seq<char>, j: int)
    requires
        0 <= j,
    ensures
        close_from(s, j) matches Some(e) ==> j <= e && e + 1 < s.len(),
    decreases s.len() - j,
{
    if j + 1 < s.len() && !(s[j] == '\n' || s[j] == '[') && !(s[j] == ']' && s[j + 1] == ']') {
        lemma_close_from(s, j + 1);
    }
}

/// Where the link text opened at `a` closes (the position of its `]]`).
fn find_close(cs: &Vec<char>, a: usize) -> (r: Option<usize>)
    requires
        a <= cs@.len(),
    ensures
        r matches Some(e) ==> close_from(cs@, a as int) == Some(e as int),
        r is None ==> close_from(cs@, a as int) is None,
{
    let mut j = a;
    while j < cs.len() && j + 1 < cs.len()
        invariant
            a <= j <= cs@.len(),
            close_from(cs@, a as int) == close_from(cs@, j as int),
        decreases cs.len() - j,
    {
        let c = cs[j];
        if c == '\n' || c == '[' {
            return None;
        }
        if c == ']' && cs[j + 1] == ']' {
            return Some(j);
        }
        j += 1;
    }
    None
}

/// A link's text split at its first `|` into a target and a display text,
/// both trimmed; with no `|` both are the trimmed text.
pub open spec fn split_target_display_spec(inside: Seq<char>) -> (Seq<char>, Seq<char>) {
    match find_char_from(inside, '|', 0) {
        Some(k) => (trim_ws(inside.take(k)), trim_ws(inside.skip(k + 1))),
        None => (trim_ws(inside), trim_ws(inside)),
    }
}

/// Split a link's text into its target and its display text.
pub fn split_target_display(inside: &Vec<char>) -> (r: (String, String))
    ensures
        (r.0@, r.1@) == split_target_display_spec(inside@),
{
    proof { lemma_find_char_from(inside@, '|', 0); }
    match find_char_from_exec(inside, '|', 0) {
        Some(k) => {
            let n = inside.len();
            assert(k < n);
            let (a, b) = trim_ws_bounds(inside, 0, k);
            let (c, d) = trim_ws_bounds(inside, k + 1, n);
            proof {
                assert(inside@.subrange(0, k as int) =~= inside@.take(k as int));
                assert(inside@.subrange(k + 1, inside@.len() as int) =~= inside@.skip(k + 1));
            }
            (string_of_range(inside, a, b), string_of_range(inside, c, d))
        },
        None => {
            let (a, b) = trim_ws_bounds(inside, 0, inside.len());
            proof { assert(inside@.subrange(0, inside@.len() as int) =~= inside@); }
            (string_of_range(inside, a, b), string_of_range(inside, a, b))
        },
    }
}

// ---------------------------------------------------------------------------
// Resolving
// ---------------------------------------------------------------------------

/// First doc at or after `k` that sits in `dir` and whose stem slugs to `ts`.
pub open spec fn first_in_dir(docs: Seq<DocMeta>, dir: Seq<Comp>, ts: Seq<char>, k: int) -> Option<int>
    decreases docs.len() - k,
{
    if k < 0 || k >= docs.len() {
        None
    } else if dir_of(docs[k].id_path@) == dir && stem_key(docs[k].id_path@) == ts {
        Some(k)
    } else {
        first_in_dir(docs, dir, ts, k + 1)
    }
}

/// Search `dir`, then each of its parents up to the root, for a doc whose
/// stem slugs to `ts`.
pub open spec fn search_up(docs: Seq<DocMeta>, dir: Seq<Comp>, ts: Seq<char>) -> Option<int>
    decreases dir.len(),
{
    match first_in_dir(docs, dir, ts, 0) {
        Some(i) => Some(i),
        None => match parent_comps(dir) {
            Some(p) => if p.len() < dir.len() {
                search_up(docs, p, ts)
            } else {
                None
            },
            None => None,
        },
    }
}

/// The doc a target resolves to from the doc at `source`: none for a target
/// whose slug is empty.
pub open spec fn resolve_spec(target: Seq<char>, source: Seq<char>, docs: Seq<DocMeta>) -> Option<int> {
    let ts = slugify_spec(target);
    if ts.len() == 0 {
        None
    } else {
        search_up(docs, dir_of(source), ts)
    }
}

proof fn lemma_first_in_dir(docs: Seq<DocMeta>, dir: Seq<Comp>, ts: Seq<char>, k: int)
    requires
        0 <= k,
    ensures
        first_in_dir(docs, dir, ts, k) matches Some(i) ==> k <= i < docs.len(),
    decreases docs.len() - k,
{
    if k < docs.len() && !(dir_of(docs[k].id_path@) == dir && stem_key(docs[k].id_path@) == ts) {
        lemma_first_in_dir(docs, dir, ts, k + 1);
    }
}

proof fn lemma_search_up(docs: Seq<DocMeta>, dir: Seq<Comp>, ts: Seq<char>)
    ensures
        search_up(docs, dir, ts) matches Some(i) ==> 0 <= i < docs.len(),
    decreases dir.len(),
{
    lemma_first_in_dir(docs, dir, ts, 0);
    if first_in_dir(docs, dir, ts, 0) is None {
        if let Some(p) = parent_comps(dir) {
            if p.len() < dir.len() {
                lemma_search_up(docs, p, ts);
            }
        }
    }
}

/// Resolve `target` from the doc at `source_id_path`: the position in `docs`
/// of the first doc, in the source's directory and then in each parent,
/// whose stem slugs to the target's slug.
pub fn resolve(target: &str, source_id_path: &str, docs: &Vec<DocMeta>) -> (r: Option<usize>)
    ensures
        r matches Some(i) ==> resolve_spec(target@, source_id_path@, docs@) == Some(i as int) && i < docs@.len(),
        r is None ==> resolve_spec(target@, source_id_path@, docs@) is None,
{
    let ts = slugify(target);
    if ts.as_str().unicode_len() == 0 {
        return None;
    }
    let mut dir = dir_of_exec(source_id_path);
    loop
        invariant
            ts@ == slugify_spec(target@),
            ts@.len() > 0,
            resolve_spec(target@, source_id_path@, docs@) == search_up(docs@, comps_view(dir@), ts@),
        decreases dir@.len(),
    {
        let ghost d = comps_view(dir@);
        let mut k: usize = 0;
        while k < docs.len()
            invariant
                k <= docs@.len(),
                d == comps_view(dir@),
                ts@ == slugify_spec(target@),
                resolve_spec(target@, source_id_path@, docs@) == search_up(docs@, d, ts@),
                first_in_dir(docs@, d, ts@, 0) == first_in_dir(docs@, d, ts@, k as int),
            decreases docs.len() - k,
        {
            let here = dir_of_exec(docs[k].id_path.as_str());
            let key = stem_key_exec(docs[k].id_path.as_str());
            if comps_eq(&here, &dir) && crate::text::str_eq(key.as_str(), ts.as_str()) {
                proof {
                    assert(dir_of(docs@[k as int].id_path@) == d && stem_key(docs@[k as int].id_path@) == ts@);
                    assert(first_in_dir(docs@, d, ts@, k as int) == Some(k as int));
                    assert(search_up(docs@, d, ts@) == Some(k as int));
                }
                return Some(k);
            }
            k += 1;
        }
        match parent_exec(&dir) {
            Some(p) => {
                proof { assert(comps_view(p@).len() < d.len()); }
                dir = p;
            },
            None => {
                return None;
            },
        }
    }
}

// ---------------------------------------------------------------------------
// Expanding
// ---------------------------------------------------------------------------

/// The HTML a link with text `inside` becomes.
pub open spec fn link_piece(inside: Seq<char>, source: Seq<char>, docs: Seq<DocMeta>) -> Seq<char> {
    let (target, display) = split_target_display_spec(inside);
    match resolve_spec(target, source, docs) {
        Some(i) => link_html(to_url_spec(docs[i].output_path@), display),
        None => nolink_html(display),
    }
}

/// The text from position `i` on, with each wikilink replaced by its HTML.
/// An opening `[[` that never closes stays as it is, and scanning goes on
/// right after it.
pub open spec fn expand_text(s: Seq<char>, i: int, source: Seq<char>, docs: Seq<DocMeta>) -> Seq<char>
    decreases s.len() - i,
{
    if i < 0 || i > s.len() {
        Seq::empty()
    } else {
        match find_from(s, seq!['[', '['], i) {
            None => s.skip(i),
            Some(o) => if o < i || o + 2 > s.len() {
                Seq::empty()
            } else {
                match close_from(s, o + 2) {
                    Some(e) => if e < o + 2 || e + 2 > s.len() {
                        Seq::empty()
                    } else {
                        s.subrange(i, o) + link_piece(s.subrange(o + 2, e), source, docs) + expand_text(
                            s,
                            e + 2,
                            source,
                            docs,
                        )
                    },
                    None => s.subrange(i, o) + seq!['[', '['] + expand_text(s, o + 2, source, docs),
                }
            },
        }
    }
}

/// The ids of the docs that the links from position `i` on resolve to, in
/// order, with repeats.
pub open spec fn resolved_ids(s: Seq<char>, i: int, source: Seq<char>, docs: Seq<DocMeta>) -> Seq<Seq<char>>
    decreases s.len() - i,
{
    if i < 0 || i > s.len() {
        Seq::empty()
    } else {
        match find_from(s, seq!['[', '['], i) {
            None => Seq::empty(),
            Some(o) => if o < i || o + 2 > s.len() {
                Seq::empty()
            } else {
                match close_from(s, o + 2) {
                    Some(e) => if e < o + 2 || e + 2 > s.len() {
                        Seq::empty()
                    } else {
                        let here = match resolve_spec(split_target_display_spec(s.subrange(o + 2, e)).0, source, docs) {
                            Some(k) => seq![docs[k].id_path@],
                            None => Seq::empty(),
                        };
                        here + resolved_ids(s, e + 2, source, docs)
                    },
                    None => resolved_ids(s, o + 2, source, docs),
                }
            },
        }
    }
}

/// `ids` with every id dropped whose path (compared by components) came
/// earlier.
pub open spec fn dedup_paths(ids: Seq<Seq<char>>) -> Seq<Seq<char>>
    decreases ids.len(),
{
    if ids.len() == 0 {
        ids
    } else {
        let d = dedup_paths(ids.drop_last());
        if exists|j: int| 0 <= j < d.len() && components(#[trigger] d[j]) == components(ids.last()) {
            d
        } else {
            d.push(ids.last())
        }
    }
}

/// Is `id` (by components) among `links`?
fn has_path(links: &Vec<String>, id: &str) -> (r: bool)
    ensures
        r == exists|j: int| 0 <= j < links@.len() && components((#[trigger] links@[j])@) == components(id@),
{
    let want = path_components(&chars_of(id));
    let mut j: usize = 0;
    while j < links.len()
        invariant
            j <= links@.len(),
            comps_view(want@) == components(id@),
            forall|m: int| 0 <= m < j ==> components((#[trigger] links@[m])@) != components(id@),
        decreases links.len() - j,
    {
        let have = path_components(&chars_of(links[j].as_str()));
        if comps_eq(&have, &want) {
            return true;
        }
        j += 1;
    }
    false
}

/// Record `id` as an outlink unless its path is already recorded.
fn add_outlink(links: &mut Vec<String>, id: &String, Ghost(seen): Ghost<Seq<Seq<char>>>)
    requires
        old(links)@.map_values(|t: String| t@) == dedup_paths(seen),
    ensures
        final(links)@.map_values(|t: String| t@) == dedup_paths(seen.push(id@)),
{
    let ghost before = links@;
    let ghost dv = dedup_paths(seen);
    proof {
        let n = seen.push(id@);
        assert(n.drop_last() == seen);
        assert(n.last() == id@);
        assert((exists|j: int| 0 <= j < before.len() && components((#[trigger] before[j])@) == components(id@)) <==> (
        exists|j: int| 0 <= j < dv.len() && components(#[trigger] dv[j]) == components(id@))) by {
            if exists|j: int| 0 <= j < before.len() && components((#[trigger] before[j])@) == components(id@) {
                let j = choose|j: int| 0 <= j < before.len() && components((#[trigger] before[j])@) == components(id@);
                assert(dv[j] == before[j]@);
            }
            if exists|j: int| 0 <= j < dv.len() && components(#[trigger] dv[j]) == components(id@) {
                let j = choose|j: int| 0 <= j < dv.len() && components(#[trigger] dv[j]) == components(id@);
                assert(dv[j] == before[j]@);
            }
        }
    }
    if !has_path(links, id.as_str()) {
        links.push(id.clone());
        proof { assert(links@.map_values(|t: String| t@) =~= dv.push(id@)); }
    }
}

/// The HTML for the link whose text is `cs[a..e]`, and the position of the
/// doc it resolves to.
fn render_piece(cs: &Vec<char>, a: usize, e: usize, source: &Doc, docs: &Vec<DocMeta>) -> (r: (String, Option<usize>))
    requires
        a <= e <= cs@.len(),
    ensures
        r.0@ == link_piece(cs@.subrange(a as int, e as int), source.id_path@, docs@),
        r.1 matches Some(k) ==> k < docs@.len() && resolve_spec(
            split_target_display_spec(cs@.subrange(a as int, e as int)).0,
            source.id_path@,
            docs@,
        ) == Some(k as int),
        r.1 is None ==> resolve_spec(split_target_display_spec(cs@.subrange(a as int, e as int)).0, source.id_path@, docs@) is None,
{
    let inside = subvec(cs, a, e);
    let (target, display) = split_target_display(&inside);
    match resolve(target.as_str(), source.id_path.as_str(), docs) {
        Some(k) => {
            let url = to_url(docs[k].output_path.as_str());
            (render_link(url.as_str(), display.as_str()), Some(k))
        },
        None => (render_nolink(display.as_str()), None),
    }
}

proof fn lemma_expand_end(s: Seq<char>, i: int, src: Seq<char>, docs: Seq<DocMeta>)
    requires
        0 <= i <= s.len(),
        find_from(s, seq!['[', '['], i) is None,
    ensures
        expand_text(s, i, src, docs) == s.skip(i),
        resolved_ids(s, i, src, docs) == Seq::<Seq<char>>::empty(),
{
}

proof fn lemma_expand_unclosed(s: Seq<char>, i: int, o: int, src: Seq<char>, docs: Seq<DocMeta>)
    requires
        0 <= i <= o,
        o + 2 <= s.len(),
        find_from(s, seq!['[', '['], i) == Some(o),
        close_from(s, o + 2) is None,
    ensures
        expand_text(s, i, src, docs) == s.subrange(i, o) + seq!['[', '['] + expand_text(s, o + 2, src, docs),
        resolved_ids(s, i, src, docs) == resolved_ids(s, o + 2, src, docs),
{
}

proof fn lemma_expand_link(s: Seq<char>, i: int, o: int, e: int, src: Seq<char>, docs: Seq<DocMeta>)
    requires
        0 <= i <= o,
        o + 2 <= e,
        e + 2 <= s.len(),
        find_from(s, seq!['[', '['], i) == Some(o),
        close_from(s, o + 2) == Some(e),
    ensures
        expand_text(s, i, src, docs) == s.subrange(i, o) + link_piece(s.subrange(o + 2, e), src, docs) + expand_text(
            s,
            e + 2,
            src,
            docs,
        ),
        resolved_ids(s, i, src, docs) == (match resolve_spec(split_target_display_spec(s.subrange(o + 2, e)).0, src, docs) {
            Some(k) => seq![docs[k].id_path@],
            None => Seq::<Seq<char>>::empty(),
        }) + resolved_ids(s, e + 2, src, docs),
{
}

/// Replace each `[[Target]]` / `[[Target|Display]]` in `body` with an
/// anchor to the resolved doc's URL, or a `nolink` span when nothing
/// resolves; also return the ids of the resolved docs, each path once, in
/// first-seen order (the source doc's outlinks).
pub fn expand(body: &str, source: &Doc, docs: &Vec<DocMeta>) -> (r: (String, Vec<String>))
    ensures
        r.0@ == expand_text(body@, 0, source.id_path@, docs@),
        r.1@.map_values(|s: String| s@) == dedup_paths(resolved_ids(body@, 0, source.id_path@, docs@)),
{
    let cs = chars_of(body);
    let open: Vec<char> = vec!['[', '['];
    proof { assert(open@ == seq!['[', '[']); }
    let ghost s = cs@;
    let ghost src = source.id_path@;
    let mut out = String::new();
    let mut links: Vec<String> = Vec::new();
    let ghost mut seen: Seq<Seq<char>> = Seq::empty();
    let mut i: usize = 0;
    proof {
        assert(out@ + expand_text(s, 0, src, docs@) =~= expand_text(s, 0, src, docs@));
        assert(seen + resolved_ids(s, 0, src, docs@) =~= resolved_ids(s, 0, src, docs@));
        assert(links@.map_values(|t: String| t@) =~= dedup_paths(seen));
    }
    loop
        invariant_except_break
            out@ + expand_text(s, i as int, src, docs@) == expand_text(s, 0, src, docs@),
            seen + resolved_ids(s, i as int, src, docs@) == resolved_ids(s, 0, src, docs@),
        invariant
            s == cs@,
            s == body@,
            src == source.id_path@,
            open@ == seq!['[', '['],
            i <= s.len(),
            links@.map_values(|t: String| t@) == dedup_paths(seen),
        ensures
            out@ == expand_text(s, 0, src, docs@),
            seen == resolved_ids(s, 0, src, docs@),
            links@.map_values(|t: String| t@) == dedup_paths(seen),
        decreases s.len() - i,
    {
        proof { lemma_find_from_none(s, seq!['[', '['], i as int); }
        let found = find_from_exec(&cs, &open, i);
        if found.is_none() {
            let ghost before = out@;
            push_range(&mut out, &cs, i, cs.len());
            proof {
                lemma_expand_end(s, i as int, src, docs@);
                assert(s.subrange(i as int, s.len() as int) =~= s.skip(i as int));
                assert(seen + Seq::<Seq<char>>::empty() =~= seen);
                assert(out@ =~= before + s.skip(i as int));
            }
            break;
        }
        let o = found.unwrap();
        let ghost before = out@;
        push_range(&mut out, &cs, i, o);
        let a = o + 2;
        proof { lemma_close_from(s, a as int); }
        match find_close(&cs, a) {
            Some(e) => {
                let (piece, hit) = render_piece(&cs, a, e, source, docs);
                out.append(piece.as_str());
                proof {
                    lemma_expand_link(s, i as int, o as int, e as int, src, docs@);
                    assert(out@ =~= before + s.subrange(i as int, o as int) + link_piece(s.subrange(a as int, e as int), src, docs@));
                    assert(out@ + expand_text(s, e + 2, src, docs@) =~= before + expand_text(s, i as int, src, docs@));
                }
                match hit {
                    Some(k) => {
                        let ghost old_seen = seen;
                        add_outlink(&mut links, &docs[k].id_path, Ghost(seen));
                        proof {
                            seen = old_seen.push(docs@[k as int].id_path@);
                            assert(seen + resolved_ids(s, e + 2, src, docs@) =~= old_seen + (seq![docs@[k as int].id_path@]
                                + resolved_ids(s, e + 2, src, docs@)));
                        }
                    },
                    None => {
                        proof {
                            assert(resolved_ids(s, i as int, src, docs@) =~= resolved_ids(s, e + 2, src, docs@));
                        }
                    },
                }
                i = e + 2;
            },
            None => {
                out.append("[[");
                proof {
                    reveal_strlit("[[");
                    lemma_expand_unclosed(s, i as int, o as int, src, docs@);
                    assert(out@ + expand_text(s, a as int, src, docs@) =~= before + expand_text(s, i as int, src, docs@));
                }
                i = a;
            },
        }
    }
    (out, links)
}

} // verus!
