//! Template files: which files are templates, and the name a template is
//! registered under (its path relative to its root, `/`-joined).

use vstd::prelude::*;
use crate::paths::{comps_view, components, extension, has_extension, path_components, Comp, PathComp};
use crate::text::{chars_lt, chars_of, push_char, seq_lt, starts_with, string_of, string_of_range};

verus! {

broadcast use vstd::std_specs::vec::group_vec_axioms;

/// `.html` and `.xml` files are templates.
pub open spec fn is_template(path: Seq<char>) -> bool {
    extension(path) == Some("html"@) || extension(path) == Some("xml"@)
}

/// Whether `path` is a template file (`.html` or `.xml`).
pub fn is_html_or_xml(path: &str) -> (r: bool)
    ensures
        r == is_template(path@),
{
    let cs = chars_of(path);
    has_extension(&cs, "html") || has_extension(&cs, "xml")
}

/// The text of one component.
pub open spec fn comp_text(c: Comp) -> Seq<char> {
    match c {
        Comp::Root => "/"@,
        Comp::Cur => "."@,
        Comp::Parent => ".."@,
        Comp::Normal(s) => s,
    }
}

/// Component texts joined with `/`.
pub open spec fn join_comps(c: Seq<Comp>) -> Seq<char>
    decreases c.len(),
{
    if c.len() == 0 {
        Seq::empty()
    } else if c.len() == 1 {
        comp_text(c[0])
    } else {
        join_comps(c.drop_last()) + seq!['/'] + comp_text(c.last())
    }
}

/// A template's name: its relative path's components joined with `/` on
/// every platform, so theme and site names line up.
pub fn rel_template_name(rel: &str) -> (r: String)
    ensures
        r@ == join_comps(components(rel@)),
{
    let comps = path_components(&chars_of(rel));
    let ghost cv = comps_view(comps@);
    let mut out = String::new();
    let mut i: usize = 0;
    proof {
        reveal_strlit("/");
        reveal_strlit(".");
        reveal_strlit("..");
        assert(cv.take(0) =~= Seq::<Comp>::empty());
    }
    while i < comps.len()
        invariant
            i <= comps@.len(),
            cv == comps_view(comps@),
            out@ == join_comps(cv.take(i as int)),
        decreases comps.len() - i,
    {
        let ghost before = out@;
        proof {
            assert(cv.take(i + 1).drop_last() =~= cv.take(i as int));
            assert(cv.take(i + 1).last() == comps@[i as int]@);
        }
        if i > 0 {
            push_char(&mut out, '/');
        }
        match &comps[i] {
            PathComp::Root => { out.append("/"); },
            PathComp::Cur => { out.append("."); },
            PathComp::Parent => { out.append(".."); },
            PathComp::Normal(v) => { out.append(string_of(v).as_str()); },
        }
        proof {
            if i == 0 {
                assert(cv.take(1) =~= seq![cv[0]]);
                assert(out@ =~= comp_text(cv[0]));
            } else {
                assert(out@ =~= before + seq!['/'] + comp_text(cv[i as int]));
            }
        }
        i += 1;
    }
    proof { assert(cv.take(comps@.len() as int) =~= cv); }
    out
}

/// Where `italic scaffold` copies a theme's starter content from: the
/// theme's `content/` directory. A site without a theme cannot be
/// scaffolded.
pub fn scaffold_source(theme: Option<&str>) -> (r: Option<String>)
    ensures
        match theme {
            Some(t) => r matches Some(s) && s@ == crate::paths::push_rel(t@, "content"@),
            None => r is None,
        },
{
    match theme {
        Some(t) => {
            let mut s = String::from_str(t);
            crate::paths::push_rel_exec(&mut s, "content");
            Some(s)
        },
        None => None,
    }
}

// ---------------------------------------------------------------------------
// Macro imports
// ---------------------------------------------------------------------------

/// The stem of a macro template: `macros/<stem>.html` directly under
/// `macros/`, with a non-empty stem.
pub open spec fn macro_stem(name: Seq<char>) -> Option<Seq<char>> {
    let rest = name.skip(7);
    if starts_with(name, "macros/"@) && rest.len() > 5 && rest.skip(rest.len() - 5) == ".html"@ && !rest.take(
        rest.len() - 5,
    ).contains('/') {
        Some(rest.take(rest.len() - 5))
    } else {
        None
    }
}

/// The stems of the macro templates among `names`, in order.
pub open spec fn macro_stems(names: Seq<Seq<char>>) -> Seq<Seq<char>>
    decreases names.len(),
{
    if names.len() == 0 {
        Seq::empty()
    } else {
        match macro_stem(names.last()) {
            Some(m) => macro_stems(names.drop_last()).push(m),
            None => macro_stems(names.drop_last()),
        }
    }
}

/// `x` inserted into `s` before the first entry it sorts strictly below.
pub open spec fn ins_stem(s: Seq<Seq<char>>, x: Seq<char>) -> Seq<Seq<char>>
    decreases s.len(),
{
    if s.len() == 0 {
        seq![x]
    } else if seq_lt(x, s[0]) {
        seq![x] + s
    } else {
        seq![s[0]] + ins_stem(s.drop_first(), x)
    }
}

/// Stems in ascending order (insertion sort).
pub open spec fn sort_stems(s: Seq<Seq<char>>) -> Seq<Seq<char>>
    decreases s.len(),
{
    if s.len() == 0 {
        s
    } else {
        ins_stem(sort_stems(s.drop_last()), s.last())
    }
}

/// One import line per stem.
pub open spec fn import_lines(stems: Seq<Seq<char>>) -> Seq<char>
    decreases stems.len(),
{
    if stems.len() == 0 {
        Seq::empty()
    } else {
        let m = stems.last();
        import_lines(stems.drop_last()) + "{% import \"macros/"@ + m + ".html\" as "@ + m + " %}\n"@
    }
}

/// The text put before every markup body so its macros can be called: an
/// import of each `macros/<stem>.html` template, by stem, sorted by stem.
pub open spec fn macro_preamble_spec(names: Seq<Seq<char>>) -> Seq<char> {
    import_lines(sort_stems(macro_stems(names)))
}

/// The macro stem of a template name, if it is a macro template.
fn macro_stem_exec(name: &str) -> (r: Option<String>)
    ensures
        match r {
            Some(m) => macro_stem(name@) == Some(m@),
            None => macro_stem(name@) is None,
        },
{
    proof {
        reveal_strlit("macros/");
        reveal_strlit(".html");
    }
    let cs = chars_of(name);
    let n = cs.len();
    if n < 13 {
        proof {
            let rest = name@.skip(7);
            if starts_with(name@, "macros/"@) {
                assert(rest.len() == n - 7);
            }
        }
        return None;
    }
    let prefix: Vec<char> = vec!['m', 'a', 'c', 'r', 'o', 's', '/'];
    let suffix: Vec<char> = vec!['.', 'h', 't', 'm', 'l'];
    proof {
        assert(prefix@ =~= "macros/"@);
        assert(suffix@ =~= ".html"@);
    }
    if !crate::text::starts_with_exec(&cs, &prefix) || !crate::text::ends_with_exec(&cs, &suffix) {
        proof {
            let rest = name@.skip(7);
            if starts_with(name@, "macros/"@) && rest.skip(rest.len() - 5) == ".html"@ {
                assert(rest.skip(rest.len() - 5) =~= name@.skip(n - 5));
            }
        }
        return None;
    }
    let mut k: usize = 7;
    while k < n - 5
        invariant
            7 <= k <= n - 5,
            n == cs@.len(),
            cs@ == name@,
            forall|j: int| 7 <= j < k ==> cs@[j] != '/',
        decreases n - 5 - k,
    {
        if cs[k] == '/' {
            proof {
                let rest = name@.skip(7);
                assert(rest.take(rest.len() - 5)[k - 7] == '/');
            }
            return None;
        }
        k += 1;
    }
    let stem = string_of_range(&cs, 7, n - 5);
    proof {
        let rest = name@.skip(7);
        assert(rest.skip(rest.len() - 5) =~= name@.skip(n - 5));
        assert(rest.take(rest.len() - 5) =~= cs@.subrange(7, n - 5));
        let st = rest.take(rest.len() - 5);
        assert(!st.contains('/')) by {
            if st.contains('/') {
                let j = choose|j: int| 0 <= j < st.len() && #[trigger] st[j] == '/';
                assert(cs@[j + 7] == '/');
            }
        }
    }
    Some(stem)
}

/// Insert `x` into the sorted list `v`.
fn ins_stem_exec(v: &Vec<String>, x: String) -> (r: Vec<String>)
    ensures
        r@.map_values(|s: String| s@) == ins_stem(v@.map_values(|s: String| s@), x@),
{
    let ghost sv = v@.map_values(|s: String| s@);
    let xc = chars_of(x.as_str());
    let mut out: Vec<String> = Vec::new();
    let mut i: usize = 0;
    proof {
        assert(sv.skip(0) =~= sv);
        assert(out@.map_values(|s: String| s@) =~= sv.take(0));
    }
    while i < v.len() && !chars_lt(&xc, &chars_of(v[i].as_str()))
        invariant
            i <= v@.len(),
            sv == v@.map_values(|s: String| s@),
            xc@ == x@,
            out@.map_values(|s: String| s@) == sv.take(i as int),
            ins_stem(sv, x@) == sv.take(i as int) + ins_stem(sv.skip(i as int), x@),
        decreases v.len() - i,
    {
        proof {
            let t = sv.skip(i as int);
            assert(t[0] == v@[i as int]@);
            assert(t.drop_first() =~= sv.skip(i + 1));
            assert(sv.take(i + 1) =~= sv.take(i as int) + seq![t[0]]);
        }
        out.push(v[i].clone());
        proof { assert(out@.map_values(|s: String| s@) =~= sv.take(i + 1)); }
        i += 1;
    }
    let ghost before = out@.map_values(|s: String| s@);
    out.push(x);
    let mut j = i;
    proof {
        let t = sv.skip(i as int);
        if i < v.len() {
            assert(t[0] == v@[i as int]@);
        }
        assert(ins_stem(t, x@) =~= seq![x@] + t);
        assert(out@.map_values(|s: String| s@) =~= sv.take(i as int) + seq![x@]);
    }
    while j < v.len()
        invariant
            i <= j <= v@.len(),
            sv == v@.map_values(|s: String| s@),
            out@.map_values(|s: String| s@) == sv.take(i as int) + seq![x@] + sv.subrange(i as int, j as int),
            ins_stem(sv, x@) == sv.take(i as int) + seq![x@] + sv.skip(i as int),
        decreases v.len() - j,
    {
        let ghost ob = out@.map_values(|s: String| s@);
        out.push(v[j].clone());
        proof {
            assert(out@.map_values(|s: String| s@) =~= ob.push(v@[j as int]@));
            assert(sv.subrange(i as int, j + 1) =~= sv.subrange(i as int, j as int).push(v@[j as int]@));
            assert(out@.map_values(|s: String| s@) =~= sv.take(i as int) + seq![x@] + sv.subrange(i as int, j + 1));
        }
        j += 1;
    }
    proof { assert(sv.subrange(i as int, v@.len() as int) =~= sv.skip(i as int)); }
    out
}

/// The preamble importing every macro template among `names`, sorted by
/// stem, so markup bodies can call `stem::macro(..)`.
pub fn macro_preamble(names: &Vec<String>) -> (r: String)
    ensures
        r@ == macro_preamble_spec(names@.map_values(|s: String| s@)),
{
    let ghost nv = names@.map_values(|s: String| s@);
    let mut sorted: Vec<String> = Vec::new();
    let mut i: usize = 0;
    proof { assert(nv.take(0) =~= Seq::<Seq<char>>::empty()); }
    while i < names.len()
        invariant
            i <= names@.len(),
            nv == names@.map_values(|s: String| s@),
            sorted@.map_values(|s: String| s@) == sort_stems(macro_stems(nv.take(i as int))),
        decreases names.len() - i,
    {
        proof {
            assert(nv.take(i + 1).drop_last() =~= nv.take(i as int));
            assert(nv.take(i + 1).last() == names@[i as int]@);
        }
        match macro_stem_exec(names[i].as_str()) {
            Some(m) => {
                proof {
                    let ms = macro_stems(nv.take(i as int));
                    assert(macro_stems(nv.take(i + 1)) == ms.push(m@));
                    assert(ms.push(m@).drop_last() =~= ms);
                }
                sorted = ins_stem_exec(&sorted, m);
            },
            None => {},
        }
        i += 1;
    }
    proof { assert(nv.take(names@.len() as int) =~= nv); }
    let ghost sv = sorted@.map_values(|s: String| s@);
    let mut out = String::new();
    let mut k: usize = 0;
    proof { assert(sv.take(0) =~= Seq::<Seq<char>>::empty()); }
    while k < sorted.len()
        invariant
            k <= sorted@.len(),
            sv == sorted@.map_values(|s: String| s@),
            out@ == import_lines(sv.take(k as int)),
        decreases sorted.len() - k,
    {
        proof {
            assert(sv.take(k + 1).drop_last() =~= sv.take(k as int));
            assert(sv.take(k + 1).last() == sorted@[k as int]@);
        }
        out.append("{% import \"macros/");
        out.append(sorted[k].as_str());
        out.append(".html\" as ");
        out.append(sorted[k].as_str());
        out.append(" %}\n");
        k += 1;
    }
    proof { assert(sv.take(sorted@.len() as int) =~= sv); }
    out
}

} // verus!
