//! Output paths and URLs: default locations, `permalink:` patterns, pagination
//! segments, file-path-to-URL conversion and alias stubs.

use vstd::prelude::*;
use crate::date::Date;
use crate::paths::{
    components, extension, extension_span, file_stem, file_stem_span, path_components,
    push_rel, push_rel_exec, with_extension, with_extension_exec, Comp, PathComp, comps_view,
};
use crate::slug::{slugify, slugify_spec};
use crate::text::{
    chars_of, decimal, ends_with, padded, push_char, push_decimal, push_padded, replace_all,
    replace_exec, string_of, string_of_range, subvec, trim_end_char, trim_end_char_idx,
    trim_start_char, trim_start_char_idx, trim_ws, trim_ws_bounds,
};

verus! {

// ---------------------------------------------------------------------------
// default_for
// ---------------------------------------------------------------------------

/// Default render location: mirror `id_path` with an `.html` extension.
/// Used when a doc declares no `permalink:` field in frontmatter.
pub fn default_for(id_path: &str) -> (r: String)
    ensures
        r@ == with_extension(id_path@, "html"@),
{
    let cs = chars_of(id_path);
    with_extension_exec(&cs, "html")
}

// ---------------------------------------------------------------------------
// expand
// ---------------------------------------------------------------------------

/// The slug of `id_path`'s file stem (the empty stem when there is none).
pub open spec fn stem_slug(id_path: Seq<char>) -> Seq<char> {
    slugify_spec(
        match file_stem(id_path) {
            Some(s) => s,
            None => Seq::empty(),
        },
    )
}

/// The pattern with its tokens substituted, before the trailing-slash rule:
/// leading `/`s stripped, then `:slug`, `:yyyy`, `:mm`, `:dd` and (when a term
/// is given) `:term` replaced in that order.
pub open spec fn expand_tokens(
    pattern: Seq<char>,
    id_path: Seq<char>,
    date: Date,
    term: Option<Seq<char>>,
) -> Seq<char> {
    let e1 = replace_all(trim_start_char(pattern, '/'), ":slug"@, stem_slug(id_path));
    let e2 = replace_all(e1, ":yyyy"@, padded(date.year as int, 4));
    let e3 = replace_all(e2, ":mm"@, padded(date.month as int, 2));
    let e4 = replace_all(e3, ":dd"@, padded(date.day as int, 2));
    match term {
        Some(t) => replace_all(e4, ":term"@, t),
        None => e4,
    }
}

/// The output path a `permalink:` pattern expands to; a trailing `/` in the
/// pattern means "write `index.html` here".
pub open spec fn expand_spec(
    pattern: Seq<char>,
    id_path: Seq<char>,
    date: Date,
    term: Option<Seq<char>>,
) -> Seq<char> {
    let e = expand_tokens(pattern, id_path, date, term);
    if ends_with(pattern, "/"@) {
        push_rel(e, "index.html"@)
    } else {
        e
    }
}

/// Does `cs` end with `/`?
fn ends_with_slash(cs: &Vec<char>) -> (r: bool)
    ensures
        r == ends_with(cs@, "/"@),
{
    proof {
        reveal_strlit("/");
        assert("/"@.len() == 1 && "/"@[0] == '/');
    }
    if cs.len() > 0 && cs[cs.len() - 1] == '/' {
        proof { assert(cs@.skip(cs.len() - 1) =~= "/"@); }
        true
    } else {
        proof {
            if cs.len() > 0 && ends_with(cs@, "/"@) {
                assert(cs@.skip(cs.len() - 1)[0] == cs@[cs.len() - 1]);
            }
        }
        false
    }
}

/// Expand a `permalink:` pattern into a path relative to the output dir.
/// Supported variables: `:slug`, `:yyyy`, `:mm`, `:dd`, `:term`. A leading
/// `/` is stripped; a trailing `/` means "write `index.html` here". `term` is
/// `Some(slug)` for taxonomy archive pages and `None` otherwise — when `None`,
/// a literal `:term` in the pattern is left untouched.
pub fn expand(pattern: &str, id_path: &str, date: &Date, term: Option<&str>) -> (r: String)
    ensures
        r@ == expand_spec(
            pattern@,
            id_path@,
            *date,
            match term {
                Some(t) => Some(t@),
                None => None,
            },
        ),
{
    let ids = chars_of(id_path);
    let stem = match file_stem_span(&ids) {
        Some((a, b)) => string_of_range(&ids, a, b),
        None => String::new(),
    };
    let slug = slugify(stem.as_str());
    let pc = chars_of(pattern);
    let trailing = ends_with_slash(&pc);
    let k = trim_start_char_idx(&pc, '/', 0);
    proof { assert(pc@.skip(0) == pc@); }
    let e0 = subvec(&pc, k, pc.len());
    proof { assert(pc@.subrange(k as int, pc.len() as int) == pc@.skip(k as int)); }
    let e1 = replace_exec(&e0, ":slug", slug.as_str());
    let mut ys = String::new();
    push_padded(&mut ys, date.year as i64, 4);
    let e2 = replace_exec(&e1, ":yyyy", ys.as_str());
    let mut ms = String::new();
    push_padded(&mut ms, date.month as i64, 2);
    let e3 = replace_exec(&e2, ":mm", ms.as_str());
    let mut ds = String::new();
    push_padded(&mut ds, date.day as i64, 2);
    let e4 = replace_exec(&e3, ":dd", ds.as_str());
    let e5 = match term {
        Some(t) => replace_exec(&e4, ":term", t),
        None => e4,
    };
    proof {
        assert(Seq::<char>::empty() + padded(date.year as int, 4) == padded(date.year as int, 4));
        assert(Seq::<char>::empty() + padded(date.month as int, 2) == padded(date.month as int, 2));
        assert(Seq::<char>::empty() + padded(date.day as int, 2) == padded(date.day as int, 2));
    }
    let mut out = string_of(&e5);
    if trailing {
        push_rel_exec(&mut out, "index.html");
    }
    out
}

// ---------------------------------------------------------------------------
// paginate_pattern
// ---------------------------------------------------------------------------

/// Apply the pagination convention to a landing `permalink` pattern: page 1
/// is the landing pattern unchanged; pages ≥2 get a `page/N/` segment
/// appended (`/blog/` → `/blog/page/2/`).
pub open spec fn paginate_pattern_spec(permalink: Seq<char>, page: nat) -> Seq<char> {
    if page <= 1 {
        permalink
    } else {
        trim_end_char(permalink, '/') + "/page/"@ + decimal(page) + "/"@
    }
}

/// Apply the pagination convention to a landing `permalink` pattern: page 1
/// is the landing pattern unchanged; pages ≥2 get a `page/N/` segment
/// appended (Hugo-style — `/blog/` → `/blog/page/2/`). The result still
/// contains any `:term`/`:slug` tokens and is meant to be passed to [`expand`].
pub fn paginate_pattern(permalink: &str, page: usize) -> (r: String)
    ensures
        r@ == paginate_pattern_spec(permalink@, page as nat),
{
    let cs = chars_of(permalink);
    if page <= 1 {
        return string_of(&cs);
    }
    let k = trim_end_char_idx(&cs, '/', cs.len());
    proof { assert(cs@.take(cs.len() as int) == cs@); }
    let mut out = string_of_range(&cs, 0, k);
    proof { assert(cs@.subrange(0, k as int) == cs@.take(k as int)); }
    out.append("/page/");
    push_decimal(&mut out, page as u64);
    out.append("/");
    out
}

// ---------------------------------------------------------------------------
// to_url
// ---------------------------------------------------------------------------

/// The URL of an output path: `…index.html` becomes its directory URL
/// (`/` for the root), anything else is rooted with a leading `/`.
pub open spec fn to_url_spec(path: Seq<char>) -> Seq<char> {
    if ends_with(path, "index.html"@) {
        let trimmed = trim_end_char(path.take(path.len() - 10), '/');
        if trimmed.len() == 0 {
            "/"@
        } else {
            "/"@ + trimmed + "/"@
        }
    } else {
        "/"@ + path
    }
}

/// Convert a filesystem `output_path` into a web URL. Used for `href` values.
///
/// - `index.html`            → `/`
/// - `foo/bar/index.html`    → `/foo/bar/`
/// - `posts/p1.html`         → `/posts/p1.html`
/// - `sitemap.xml`           → `/sitemap.xml`
pub fn to_url(output_path: &str) -> (r: String)
    ensures
        r@ == to_url_spec(output_path@),
{
    let cs = chars_of(output_path);
    let suffix = chars_of("index.html");
    proof {
        reveal_strlit("index.html");
        assert("index.html"@.len() == 10);
    }
    if crate::text::ends_with_exec(&cs, &suffix) {
        let k = trim_end_char_idx(&cs, '/', cs.len() - 10);
        if k == 0 {
            proof { assert(cs@.take(0) =~= Seq::<char>::empty()); }
            String::from_str("/")
        } else {
            let mut out = String::from_str("/");
            crate::text::push_range(&mut out, &cs, 0, k);
            out.append("/");
            proof { assert(cs@.subrange(0, k as int) == cs@.take(k as int)); }
            out
        }
    } else {
        let mut out = String::from_str("/");
        out.append(output_path);
        out
    }
}

// ---------------------------------------------------------------------------
// alias_output_path
// ---------------------------------------------------------------------------

/// The output path before the `..` check: leading `/`s stripped, and
/// `index.html` appended when the alias ends in `/` or names no extension.
pub open spec fn alias_candidate(alias: Seq<char>) -> Seq<char> {
    let trimmed = trim_ws(alias);
    let path = trim_start_char(trimmed, '/');
    if ends_with(trimmed, "/"@) || extension(path) is None {
        push_rel(path, "index.html"@)
    } else {
        path
    }
}

/// The output file of an `aliases:` entry, or `None` for a blank alias or one
/// with a `..` component.
pub open spec fn alias_output_path_spec(alias: Seq<char>) -> Option<Seq<char>> {
    if trim_ws(alias).len() == 0 {
        None
    } else if components(alias_candidate(alias)).contains(Comp::Parent) {
        None
    } else {
        Some(alias_candidate(alias))
    }
}

/// Does a component list hold a `..`?
fn has_parent_comp(c: &Vec<PathComp>) -> (r: bool)
    ensures
        r == comps_view(c@).contains(Comp::Parent),
{
    let mut i: usize = 0;
    while i < c.len()
        invariant
            i <= c.len(),
            forall|j: int| 0 <= j < i ==> c@[j]@ != Comp::Parent,
        decreases c.len() - i,
    {
        if let PathComp::Parent = c[i] {
            proof { assert(comps_view(c@)[i as int] == Comp::Parent); }
            return true;
        }
        i += 1;
    }
    proof {
        if comps_view(c@).contains(Comp::Parent) {
            let j = choose|j: int| 0 <= j < comps_view(c@).len() && comps_view(c@)[j] == Comp::Parent;
            assert(c@[j]@ == Comp::Parent);
        }
    }
    false
}

/// Map an `aliases:` entry (a literal historical URL) to the output file its
/// redirect stub is written at:
///
/// - `/old-url/`          → `old-url/index.html`  (trailing slash)
/// - `/old-url`           → `old-url/index.html`  (no extension)
/// - `/posts/legacy.html` → `posts/legacy.html`   (literal file)
/// - `/feed.xml`          → `feed.xml`
///
/// No `:slug`/`:yyyy` token expansion happens — aliases are literal URLs.
/// Returns `None` for an empty/whitespace-only alias or one that escapes the
/// output dir via `..`.
pub fn alias_output_path(alias: &str) -> (r: Option<String>)
    ensures
        r matches Some(p) ==> alias_output_path_spec(alias@) == Some(p@),
        r is None ==> alias_output_path_spec(alias@) is None,
{
    let cs = chars_of(alias);
    let (a, b) = trim_ws_bounds(&cs, 0, cs.len());
    proof { assert(cs@.subrange(0, cs.len() as int) == cs@); }
    if a == b {
        return None;
    }
    let trimmed = subvec(&cs, a, b);
    let ends_slash = ends_with_slash(&trimmed);
    let k = trim_start_char_idx(&trimmed, '/', 0);
    proof { assert(trimmed@.skip(0) == trimmed@); }
    let pathv = subvec(&trimmed, k, trimmed.len());
    proof { assert(trimmed@.subrange(k as int, trimmed.len() as int) == trimmed@.skip(k as int)); }
    let mut path = string_of(&pathv);
    let no_ext = match extension_span(&pathv) {
        Some(_) => false,
        None => true,
    };
    if ends_slash || no_ext {
        push_rel_exec(&mut path, "index.html");
    }
    let pcs = chars_of(path.as_str());
    let comps = path_components(&pcs);
    if has_parent_comp(&comps) {
        None
    } else {
        Some(path)
    }
}

} // verus!
