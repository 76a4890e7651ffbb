//! Wikilink resolution: `[[Name]]`, `[[dir/Name]]` and `[[Name|Display]]`
//! targets are matched by the slug of a doc's file stem; ties go to the doc
//! nearest the source in the directory tree, then to the smallest `id_path`.
//! An explicit `dir/` prefix restricts candidates to that directory.

use vstd::prelude::*;
use crate::doc::DocMeta;
use crate::html::{escape, escape_spec};
use crate::paths::{comp_eq, comps_view, components, file_stem, file_stem_span, parent_comps, parent_exec, path_components, Comp, PathComp};
use crate::permalink::{to_url, to_url_spec};
use crate::slug::{slugify, slugify_spec};
use crate::sorted::{get, keys_sorted, lookup, upsert};
use crate::text::{chars_of, find_char_from, find_char_from_exec, lemma_find_char_from, lemma_rfind_char, path_lt, path_str_lt, rfind_char, rfind_char_exec, str_eq, string_of_range};

verus! {

broadcast use vstd::std_specs::vec::group_vec_axioms;

// ---------------------------------------------------------------------------
// Rendering
// ---------------------------------------------------------------------------

/// A resolved link: `<a class="wikilink" href="URL">DISPLAY</a>`, escaped.
pub open spec fn link_html(url: Seq<char>, display: Seq<char>) -> Seq<char> {
    "<a class=\"wikilink\" href=\""@ + escape_spec(url) + "\">"@ + escape_spec(display) + "</a>"@
}

/// An unresolved link: `<span class="nolink">DISPLAY</span>`, escaped.
pub open spec fn nolink_html(display: Seq<char>) -> Seq<char> {
    "<span class=\"nolink\">"@ + escape_spec(display) + "</span>"@
}

/// The anchor for a resolved wikilink.
pub fn render_link(url: &str, display: &str) -> (r: String)
    ensures
        r@ == link_html(url@, display@),
{
    let mut out = String::from_str("<a class=\"wikilink\" href=\"");
    out.append(escape(url).as_str());
    out.append("\">");
    out.append(escape(display).as_str());
    out.append("</a>");
    out
}

/// The span for an unresolved wikilink.
pub fn render_nolink(display: &str) -> (r: String)
    ensures
        r@ == nolink_html(display@),
{
    let mut out = String::from_str("<span class=\"nolink\">");
    out.append(escape(display).as_str());
    out.append("</span>");
    out
}

// ---------------------------------------------------------------------------
// Targets
// ---------------------------------------------------------------------------

/// Split a target at its last `/` into an optional directory prefix and a
/// stem: `reference/Glossary` → (`reference`, `Glossary`); `Hello` → (none,
/// `Hello`). A leading `/` leaves an empty prefix (the vault root).
pub open spec fn split_prefix_stem_spec(t: Seq<char>) -> (Option<Seq<char>>, Seq<char>) {
    match rfind_char(t, '/') {
        Some(i) => (Some(t.take(i)), t.skip(i + 1)),
        None => (None, t),
    }
}

/// Split a wikilink target into an optional path prefix and a stem.
pub fn split_prefix_stem(target: &str) -> (r: (Option<String>, String))
    ensures
        (match r.0 {
            Some(p) => Some(p@),
            None => None,
        }, r.1@) == split_prefix_stem_spec(target@),
{
    let cs = chars_of(target);
    proof { lemma_rfind_char(cs@, '/'); }
    match rfind_char_exec(&cs, '/') {
        Some(i) => {
            let p = string_of_range(&cs, 0, i);
            let s = string_of_range(&cs, i + 1, cs.len());
            proof {
                assert(cs@.subrange(0, i as int) =~= cs@.take(i as int));
                assert(cs@.subrange(i + 1, cs@.len() as int) =~= cs@.skip(i + 1));
            }
            (Some(p), s)
        },
        None => (None, String::from_str(target)),
    }
}

/// The directory of a doc: its `id_path`'s parent, or the empty path.
pub open spec fn dir_of(id: Seq<char>) -> Seq<Comp> {
    match parent_comps(components(id)) {
        Some(c) => c,
        None => Seq::empty(),
    }
}

/// The slug a doc is found under: that of its file stem (empty stem when
/// there is none).
pub open spec fn stem_key(id: Seq<char>) -> Seq<char> {
    slugify_spec(
        match file_stem(id) {
            Some(s) => s,
            None => Seq::empty(),
        },
    )
}

/// Length of the longest common prefix of `x[i..]` and `y[i..]`, plus `i`.
pub open spec fn common_from(x: Seq<Comp>, y: Seq<Comp>, i: int) -> int
    decreases x.len() - i,
{
    if 0 <= i < x.len() && i < y.len() && x[i] == y[i] {
        common_from(x, y, i + 1)
    } else {
        i
    }
}

/// Edges between two directories in the tree: drop the longest shared
/// component prefix, then count what remains on each side (saturating at
/// `usize::MAX`, which no real pair of paths reaches).
pub open spec fn comp_distance(x: Seq<Comp>, y: Seq<Comp>) -> int {
    let c = common_from(x, y, 0);
    let d = (x.len() - c) + (y.len() - c);
    if d > usize::MAX { usize::MAX as int } else { d }
}

proof fn lemma_common_from(x: Seq<Comp>, y: Seq<Comp>, i: int)
    requires
        0 <= i <= x.len(),
        i <= y.len(),
    ensures
        i <= common_from(x, y, i) <= x.len(),
        common_from(x, y, i) <= y.len(),
    decreases x.len() - i,
{
    if i < x.len() && i < y.len() && x[i] == y[i] {
        lemma_common_from(x, y, i + 1);
    }
}

/// Edge count between the component lists `x` and `y`.
pub fn comp_distance_exec(x: &Vec<PathComp>, y: &Vec<PathComp>) -> (r: usize)
    ensures
        r == comp_distance(comps_view(x@), comps_view(y@)),
{
    let ghost xv = comps_view(x@);
    let ghost yv = comps_view(y@);
    let mut i: usize = 0;
    while i < x.len() && i < y.len() && comp_eq(&x[i], &y[i])
        invariant
            i <= x.len(),
            i <= y.len(),
            xv == comps_view(x@),
            yv == comps_view(y@),
            common_from(xv, yv, 0) == common_from(xv, yv, i as int),
        decreases x.len() - i,
    {
        proof { assert(xv[i as int] == yv[i as int]); }
        i += 1;
    }
    proof {
        if i < x.len() && i < y.len() {
            assert(xv[i as int] != yv[i as int]);
        }
    }
    (x.len() - i).saturating_add(y.len() - i)
}

/// Edge count between two directory paths: `blog/2025` to `reference` is 3
/// (up two, down one).
pub fn dir_distance(a: &str, b: &str) -> (r: usize)
    ensures
        r == comp_distance(components(a@), components(b@)),
{
    let x = path_components(&chars_of(a));
    let y = path_components(&chars_of(b));
    comp_distance_exec(&x, &y)
}

/// Slugs of the non-empty `/`-separated segments of `p[i..]`.
pub open spec fn prefix_slugs_from(p: Seq<char>, i: int) -> Seq<Seq<char>>
    decreases p.len() - i,
{
    if i < 0 || i > p.len() {
        Seq::empty()
    } else {
        match find_char_from(p, '/', i) {
            Some(k) => if i <= k < p.len() {
                seg_slug(p.subrange(i, k)) + prefix_slugs_from(p, k + 1)
            } else {
                Seq::empty()
            },
            None => seg_slug(p.skip(i)),
        }
    }
}

/// The slug of one segment, or nothing for an empty segment.
pub open spec fn seg_slug(g: Seq<char>) -> Seq<Seq<char>> {
    if g.len() == 0 {
        Seq::empty()
    } else {
        seq![slugify_spec(g)]
    }
}

/// Slugs of the `Normal` components of a directory.
pub open spec fn normal_slugs(c: Seq<Comp>) -> Seq<Seq<char>>
    decreases c.len(),
{
    if c.len() == 0 {
        Seq::empty()
    } else {
        let r = normal_slugs(c.drop_last());
        match c.last() {
            Comp::Normal(s) => r.push(slugify_spec(s)),
            _ => r,
        }
    }
}

/// A directory matches a prefix when its names, slugified one by one, are
/// the prefix's non-empty segments, slugified.
pub open spec fn prefix_ok(dir: Seq<Comp>, prefix: Seq<char>) -> bool {
    normal_slugs(dir) == prefix_slugs_from(prefix, 0)
}

/// Slugs of the non-empty segments of `prefix`.
fn prefix_slugs(prefix: &str) -> (r: Vec<String>)
    ensures
        r@.map_values(|s: String| s@) == prefix_slugs_from(prefix@, 0),
{
    let cs = chars_of(prefix);
    let mut out: Vec<String> = Vec::new();
    let mut i: usize = 0;
    loop
        invariant
            i <= cs@.len(),
            cs@ == prefix@,
            out@.map_values(|s: String| s@) + prefix_slugs_from(cs@, i as int) == prefix_slugs_from(cs@, 0),
        decreases cs@.len() - i,
    {
        let ghost before = out@.map_values(|s: String| s@);
        proof { lemma_find_char_from(cs@, '/', i as int); }
        match find_char_from_exec(&cs, '/', i) {
            Some(k) => {
                if k > i {
                    let g = string_of_range(&cs, i, k);
                    out.push(slugify(g.as_str()));
                }
                proof {
                    assert(out@.map_values(|s: String| s@) =~= before + seg_slug(cs@.subrange(i as int, k as int)));
                }
                i = k + 1;
            },
            None => {
                if i < cs.len() {
                    let g = string_of_range(&cs, i, cs.len());
                    proof { assert(cs@.subrange(i as int, cs@.len() as int) =~= cs@.skip(i as int)); }
                    out.push(slugify(g.as_str()));
                }
                proof {
                    assert(out@.map_values(|s: String| s@) =~= before + seg_slug(cs@.skip(i as int)));
                    assert(out@.map_values(|s: String| s@) =~= prefix_slugs_from(cs@, 0));
                }
                return out;
            },
        }
    }
}

/// Slugs of the `Normal` components of `c`.
fn normal_slugs_exec(c: &Vec<PathComp>) -> (r: Vec<String>)
    ensures
        r@.map_values(|s: String| s@) == normal_slugs(comps_view(c@)),
{
    let mut out: Vec<String> = Vec::new();
    let mut i: usize = 0;
    proof { assert(comps_view(c@).take(0) =~= Seq::<Comp>::empty()); }
    while i < c.len()
        invariant
            i <= c@.len(),
            out@.map_values(|s: String| s@) == normal_slugs(comps_view(c@).take(i as int)),
        decreases c.len() - i,
    {
        let ghost before = out@.map_values(|s: String| s@);
        proof {
            assert(comps_view(c@).take(i + 1).drop_last() =~= comps_view(c@).take(i as int));
            assert(comps_view(c@).take(i + 1).last() == c@[i as int]@);
        }
        match &c[i] {
            PathComp::Normal(v) => {
                let g = crate::text::string_of(v);
                out.push(slugify(g.as_str()));
                proof { assert(out@.map_values(|s: String| s@) =~= before.push(slugify_spec(v@))); }
            },
            _ => {},
        }
        i += 1;
    }
    proof { assert(comps_view(c@).take(c@.len() as int) =~= comps_view(c@)); }
    out
}

/// Equality of two lists of strings.
fn strs_eq(a: &Vec<String>, b: &Vec<String>) -> (r: bool)
    ensures
        r == (a@.map_values(|s: String| s@) == b@.map_values(|s: String| s@)),
{
    if a.len() != b.len() {
        proof { assert(a@.map_values(|s: String| s@).len() != b@.map_values(|s: String| s@).len()); }
        return false;
    }
    let mut i: usize = 0;
    while i < a.len()
        invariant
            i <= a@.len(),
            a@.len() == b@.len(),
            forall|k: int| 0 <= k < i ==> (#[trigger] a@[k])@ == b@[k]@,
        decreases a.len() - i,
    {
        if !str_eq(a[i].as_str(), b[i].as_str()) {
            proof { assert(a@.map_values(|s: String| s@)[i as int] != b@.map_values(|s: String| s@)[i as int]); }
            return false;
        }
        i += 1;
    }
    proof { assert(a@.map_values(|s: String| s@) =~= b@.map_values(|s: String| s@)); }
    true
}

/// Does directory `dir` match the wikilink prefix?
fn prefix_matches_comps(dir: &Vec<PathComp>, prefix: &str) -> (r: bool)
    ensures
        r == prefix_ok(comps_view(dir@), prefix@),
{
    let p = prefix_slugs(prefix);
    let d = normal_slugs_exec(dir);
    strs_eq(&d, &p)
}

/// True iff `parent`'s components, slugified one by one, equal `prefix`'s
/// non-empty `/`-separated segments, slugified.
pub fn prefix_matches(parent: &str, prefix: &str) -> (r: bool)
    ensures
        r == prefix_ok(components(parent@), prefix@),
{
    let c = path_components(&chars_of(parent));
    prefix_matches_comps(&c, prefix)
}

/// The directory of a doc, as components.
pub fn dir_of_exec(id: &str) -> (r: Vec<PathComp>)
    ensures
        comps_view(r@) == dir_of(id@),
{
    let c = path_components(&chars_of(id));
    match parent_exec(&c) {
        Some(p) => p,
        None => {
            let v: Vec<PathComp> = Vec::new();
            proof { assert(comps_view(v@) =~= Seq::<Comp>::empty()); }
            v
        },
    }
}

// ---------------------------------------------------------------------------
// Resolution
// ---------------------------------------------------------------------------

/// `(id_path, output_path)` of each candidate.
pub open spec fn meta_views(v: Seq<DocMeta>) -> Seq<(Seq<char>, Seq<char>)> {
    v.map_values(|m: DocMeta| (m.id_path@, m.output_path@))
}

/// The docs among the first `n` whose stem slug is `k`, in order.
pub open spec fn stem_group(docs: Seq<DocMeta>, k: Seq<char>, n: int) -> Seq<(Seq<char>, Seq<char>)>
    decreases n,
{
    if n <= 0 {
        Seq::empty()
    } else {
        let g = stem_group(docs, k, n - 1);
        if stem_key(docs[n - 1].id_path@) == k {
            g.push((docs[n - 1].id_path@, docs[n - 1].output_path@))
        } else {
            g
        }
    }
}

/// `idx` groups `docs` by stem slug: one entry per slug some doc has, listing
/// those docs in order.
pub open spec fn index_fits(idx: Seq<(String, Vec<DocMeta>)>, docs: Seq<DocMeta>) -> bool {
    &&& keys_sorted(idx)
    &&& forall|k: Seq<char>| #[trigger] lookup(idx, k) matches Some(v) ==> stem_group(docs, k, docs.len() as int).len() > 0
        && meta_views(v@) == stem_group(docs, k, docs.len() as int)
    &&& forall|k: Seq<char>| #[trigger] lookup(idx, k) is None ==> stem_group(docs, k, docs.len() as int).len() == 0
}

/// The slug of `id`'s file stem.
pub fn stem_key_exec(id: &str) -> (r: String)
    ensures
        r@ == stem_key(id@),
{
    let cs = chars_of(id);
    match file_stem_span(&cs) {
        Some((a, b)) => slugify(string_of_range(&cs, a, b).as_str()),
        None => {
            proof {
                reveal_strlit("");
                assert(""@ =~= Seq::<char>::empty());
            }
            slugify("")
        },
    }
}

/// Group docs by the slug of their file stem, the key a wikilink target is
/// matched against.
pub fn build_stem_index(docs: &Vec<DocMeta>) -> (r: Vec<(String, Vec<DocMeta>)>)
    ensures
        index_fits(r@, docs@),
{
    let mut idx: Vec<(String, Vec<DocMeta>)> = Vec::new();
    let mut i: usize = 0;
    while i < docs.len()
        invariant
            i <= docs@.len(),
            index_fits(idx@, docs@.take(i as int)),
        decreases docs.len() - i,
    {
        let key = stem_key_exec(docs[i].id_path.as_str());
        let ghost before = idx@;
        let ghost pre = docs@.take(i as int);
        let ghost cur = docs@.take(i + 1);
        proof {
            assert forall|k: Seq<char>| #[trigger] stem_group(cur, k, i + 1) == if stem_key(docs@[i as int].id_path@) == k {
                stem_group(pre, k, i as int).push((docs@[i as int].id_path@, docs@[i as int].output_path@))
            } else {
                stem_group(pre, k, i as int)
            } by {
                lemma_stem_group_prefix(docs@, k, i as int, i + 1);
                lemma_stem_group_prefix(docs@, k, i as int, i as int);
            }
        }
        let mut list: Vec<DocMeta> = match get(&idx, key.as_str()) {
            Some(v) => {
                let mut c: Vec<DocMeta> = Vec::new();
                let mut j: usize = 0;
                while j < v.len()
                    invariant
                        j <= v@.len(),
                        c@.len() == j,
                        meta_views(c@) == meta_views(v@).take(j as int),
                    decreases v.len() - j,
                {
                    let ghost before = c@;
                    let m = v[j].clone_meta();
                    c.push(m);
                    proof {
                        assert(c@ == before.push(m));
                        assert(meta_views(v@)[j as int] == (v@[j as int].id_path@, v@[j as int].output_path@));
                        assert forall|k: int| 0 <= k < j + 1 implies #[trigger] meta_views(c@)[k] == meta_views(v@).take(j + 1)[k] by {
                            if k < j {
                                assert(c@[k] == before[k]);
                                assert(meta_views(before)[k] == meta_views(v@).take(j as int)[k]);
                            }
                        }
                        assert(meta_views(c@) =~= meta_views(v@).take(j + 1));
                    }
                    j += 1;
                }
                proof { assert(meta_views(v@).take(v@.len() as int) =~= meta_views(v@)); }
                c
            },
            None => Vec::new(),
        };
        let ghost old_list = list@;
        list.push(docs[i].clone_meta());
        let ghost glist = list;
        upsert(&mut idx, key, list);
        proof {
            assert(lookup(idx@, key@) == Some(glist));
            assert(meta_views(glist@) =~= meta_views(old_list).push((docs@[i as int].id_path@, docs@[i as int].output_path@)));
            assert forall|k: Seq<char>| #[trigger] lookup(idx@, k) matches Some(v) ==> stem_group(cur, k, i + 1).len() > 0
                && meta_views(v@) == stem_group(cur, k, i + 1) by {
                if k != key@ {
                    assert(lookup(idx@, k) == lookup(before, k));
                }
            }
            assert forall|k: Seq<char>| #[trigger] lookup(idx@, k) is None implies stem_group(cur, k, i + 1).len() == 0 by {
                assert(lookup(idx@, k) == lookup(before, k));
            }
        }
        i += 1;
    }
    proof { assert(docs@.take(docs@.len() as int) =~= docs@); }
    idx
}

/// `stem_group` over a prefix of the docs only reads that prefix.
proof fn lemma_stem_group_prefix(docs: Seq<DocMeta>, k: Seq<char>, i: int, n: int)
    requires
        0 <= n <= i + 1 <= docs.len(),
    ensures
        stem_group(docs.take(i + 1), k, n) == stem_group(docs, k, n),
        n <= i ==> stem_group(docs.take(i), k, n) == stem_group(docs, k, n),
    decreases n,
{
    if n > 0 {
        lemma_stem_group_prefix(docs, k, i, n - 1);
        assert(docs.take(i + 1)[n - 1] == docs[n - 1]);
        if n <= i {
            assert(docs.take(i)[n - 1] == docs[n - 1]);
        }
    }
}

/// The best candidate among the first `k`: prefix-matching, nearest to
/// `src`, ties by smallest `id_path`.
pub open spec fn best_from(cs: Seq<(Seq<char>, Seq<char>)>, prefix: Option<Seq<char>>, src: Seq<Comp>, k: int) -> Option<int>
    decreases k,
{
    if k <= 0 {
        None
    } else {
        let b = best_from(cs, prefix, src, k - 1);
        let c = cs[k - 1];
        let cd = dir_of(c.0);
        if prefix matches Some(p) && !prefix_ok(cd, p) {
            b
        } else {
            let d = comp_distance(src, cd);
            match b {
                None => Some(k - 1),
                Some(j) => {
                    let dj = comp_distance(src, dir_of(cs[j].0));
                    if d < dj || (d == dj && path_lt(c.0, cs[j].0)) {
                        Some(k - 1)
                    } else {
                        Some(j)
                    }
                },
            }
        }
    }
}

/// The doc a wikilink target resolves to from `source`, as `(id_path,
/// output_path)`.
pub open spec fn resolve_spec(target: Seq<char>, source: Seq<char>, idx: Seq<(String, Vec<DocMeta>)>) -> Option<(Seq<char>, Seq<char>)> {
    let (prefix, stem) = split_prefix_stem_spec(target);
    let key = slugify_spec(stem);
    if key.len() == 0 {
        None
    } else {
        match lookup(idx, key) {
            None => None,
            Some(v) => match best_from(meta_views(v@), prefix, dir_of(source), v@.len() as int) {
                Some(j) => Some(meta_views(v@)[j]),
                None => None,
            },
        }
    }
}

/// The doc a wikilink resolves to, as an entry of the stem index: its stem
/// slug and its position among that slug's docs.
pub open spec fn resolve_at(target: Seq<char>, source: Seq<char>, idx: Seq<(String, Vec<DocMeta>)>) -> Option<(Seq<char>, int)> {
    let (prefix, stem) = split_prefix_stem_spec(target);
    let key = slugify_spec(stem);
    if key.len() == 0 {
        None
    } else {
        match lookup(idx, key) {
            None => None,
            Some(v) => match best_from(meta_views(v@), prefix, dir_of(source), v@.len() as int) {
                Some(j) => Some((key, j)),
                None => None,
            },
        }
    }
}

proof fn lemma_best_from(cs: Seq<(Seq<char>, Seq<char>)>, prefix: Option<Seq<char>>, src: Seq<Comp>, k: int)
    requires
        0 <= k <= cs.len(),
    ensures
        best_from(cs, prefix, src, k) matches Some(j) ==> 0 <= j < k,
    decreases k,
{
    if k > 0 {
        lemma_best_from(cs, prefix, src, k - 1);
    }
}

/// Resolve a wikilink target from the doc at `source_id_path`: slugify the
/// stem (and the prefix's components, when a `dir/Name` form is used) and
/// pick, among docs with that stem slug (and, with a prefix, that exact
/// directory), the one nearest the source, ties by smallest `id_path`.
pub fn resolve<'a>(target: &str, source_id_path: &str, stem_index: &'a Vec<(String, Vec<DocMeta>)>) -> (r: Option<&'a DocMeta>)
    requires
        keys_sorted(stem_index@),
    ensures
        match r {
            Some(m) => resolve_spec(target@, source_id_path@, stem_index@) == Some((m.id_path@, m.output_path@)),
            None => resolve_spec(target@, source_id_path@, stem_index@) is None,
        },
        r matches Some(m) ==> resolve_at(target@, source_id_path@, stem_index@) matches Some((key, j)) && lookup(
            stem_index@,
            key,
        ) matches Some(v) && 0 <= j < v@.len() && *m == v@[j],
{
    let (prefix, stem) = split_prefix_stem(target);
    let stem_slug = slugify(stem.as_str());
    if stem_slug.as_str().unicode_len() == 0 {
        return None;
    }
    let source_dir = dir_of_exec(source_id_path);
    let candidates = match get(stem_index, stem_slug.as_str()) {
        Some(c) => c,
        None => return None,
    };
    let ghost cs = meta_views(candidates@);
    let ghost pv = match &prefix {
        Some(p) => Some(p@),
        None => None::<Seq<char>>,
    };
    let mut best: Option<(usize, usize)> = None;
    let mut i: usize = 0;
    while i < candidates.len()
        invariant
            i <= candidates@.len(),
            cs == meta_views(candidates@),
            pv == match &prefix {
                Some(p) => Some(p@),
                None => None::<Seq<char>>,
            },
            match best {
                Some((j, d)) => best_from(cs, pv, comps_view(source_dir@), i as int) == Some(j as int)
                    && d == comp_distance(comps_view(source_dir@), dir_of(cs[j as int].0)) && j < i,
                None => best_from(cs, pv, comps_view(source_dir@), i as int) is None,
            },
        decreases candidates.len() - i,
    {
        let doc = &candidates[i];
        let cand_dir = dir_of_exec(doc.id_path.as_str());
        proof { assert(cs[i as int] == (doc.id_path@, doc.output_path@)); }
        let skip = match &prefix {
            Some(p) => !prefix_matches_comps(&cand_dir, p.as_str()),
            None => false,
        };
        if !skip {
            let dist = comp_distance_exec(&source_dir, &cand_dir);
            best = match best {
                None => Some((i, dist)),
                Some((j, dj)) => {
                    proof { assert(cs[j as int] == (candidates@[j as int].id_path@, candidates@[j as int].output_path@)); }
                    if dist < dj || (dist == dj && path_str_lt(doc.id_path.as_str(), candidates[j].id_path.as_str())) {
                        Some((i, dist))
                    } else {
                        Some((j, dj))
                    }
                },
            };
        }
        i += 1;
    }
    match best {
        Some((j, _)) => {
            proof {
                assert(cs[j as int] == (candidates@[j as int].id_path@, candidates@[j as int].output_path@));
                lemma_best_from(cs, pv, comps_view(source_dir@), candidates@.len() as int);
            }
            Some(&candidates[j])
        },
        None => None,
    }
}

/// The markup a wikilink becomes, recording a resolved target in `links`
/// (once). Returns the HTML and whether the target resolved.
pub fn link_for(
    target: &str,
    display: &str,
    source_id_path: &str,
    stem_index: &Vec<(String, Vec<DocMeta>)>,
    links: &mut Vec<String>,
) -> (r: (String, bool))
    requires
        keys_sorted(stem_index@),
    ensures
        match resolve_spec(target@, source_id_path@, stem_index@) {
            Some((id, out)) => {
                &&& r.1
                &&& r.0@ == link_html(to_url_spec(out), display@)
                &&& if old(links)@.map_values(|s: String| s@).contains(id) {
                    final(links)@ == old(links)@
                } else {
                    final(links)@.map_values(|s: String| s@) == old(links)@.map_values(|s: String| s@).push(id)
                }
            },
            None => !r.1 && r.0@ == nolink_html(display@) && final(links)@ == old(links)@,
        },
{
    match resolve(target, source_id_path, stem_index) {
        Some(doc) => {
            let url = to_url(doc.output_path.as_str());
            let mut present = false;
            let mut i: usize = 0;
            while i < links.len()
                invariant
                    i <= links@.len(),
                    present == exists|k: int| 0 <= k < i && (#[trigger] links@[k])@ == doc.id_path@,
                decreases links.len() - i,
            {
                if str_eq(links[i].as_str(), doc.id_path.as_str()) {
                    present = true;
                }
                i += 1;
            }
            proof {
                let lv = links@.map_values(|s: String| s@);
                if present {
                    let k = choose|k: int| 0 <= k < links@.len() && (#[trigger] links@[k])@ == doc.id_path@;
                    assert(lv[k] == doc.id_path@);
                } else if lv.contains(doc.id_path@) {
                    let k = choose|k: int| 0 <= k < lv.len() && lv[k] == doc.id_path@;
                    assert(links@[k]@ == doc.id_path@);
                }
            }
            if !present {
                let ghost before = links@.map_values(|s: String| s@);
                links.push(doc.id_path.clone());
                proof { assert(links@.map_values(|s: String| s@) =~= before.push(doc.id_path@)); }
            }
            (render_link(url.as_str(), display), true)
        },
        None => (render_nolink(display), false),
    }
}

} // verus!
