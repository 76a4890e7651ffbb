//! A model of relative, `/`-separated paths as `std::path::Path` reads them
//! on Unix: components, file name, stem, extension, and the edits the library
//! makes (`with_extension`, `push`).

use vstd::prelude::*;
use crate::text::{rfind_char, starts_with, lemma_rfind_char_eq, chars_of, chars_eq, push_char, string_of};

verus! {

/// One path component, as `std::path::Component` (no Windows prefixes).
pub enum Comp {
    Root,
    Cur,
    Parent,
    Normal(Seq<char>),
}

/// The component a single `/`-free segment contributes: none for an empty
/// segment or `.`, `Parent` for `..`, otherwise a `Normal` name.
pub open spec fn seg_comp(g: Seq<char>) -> Seq<Comp> {
    if g.len() == 0 || g == "."@ {
        Seq::empty()
    } else if g == ".."@ {
        seq![Comp::Parent]
    } else {
        seq![Comp::Normal(g)]
    }
}

/// Components of a path with no root handling: each `/`-separated segment in
/// order, through [`seg_comp`].
pub open spec fn rel_comps(s: Seq<char>) -> Seq<Comp>
    decreases s.len(),
{
    match rfind_char(s, '/') {
        None => seg_comp(s),
        Some(k) => {
            if 0 <= k < s.len() {
                rel_comps(s.take(k)) + seg_comp(s.skip(k + 1))
            } else {
                Seq::empty()
            }
        },
    }
}

/// `Path::components`: a leading `/` gives `Root`; a leading `.` segment gives
/// `Cur`; every other `.` and empty segment is dropped.
pub open spec fn components(s: Seq<char>) -> Seq<Comp> {
    if s.len() > 0 && s[0] == '/' {
        seq![Comp::Root] + rel_comps(s.skip(1))
    } else if s == "."@ || starts_with(s, "./"@) {
        seq![Comp::Cur] + rel_comps(s.skip(1))
    } else {
        rel_comps(s)
    }
}

/// `Path::parent` on components: the components minus the last one, unless
/// there is none or it is the root.
pub open spec fn parent_comps(c: Seq<Comp>) -> Option<Seq<Comp>> {
    if c.len() == 0 || c.last() == Comp::Root {
        None
    } else {
        Some(c.drop_last())
    }
}

/// Span of the segment `Path::file_name` reads: the last segment that is not
/// empty and not `.`.
pub open spec fn name_span(s: Seq<char>) -> Option<(int, int)>
    decreases s.len(),
{
    match rfind_char(s, '/') {
        None => if s.len() == 0 || s == "."@ {
            None
        } else {
            Some((0, s.len() as int))
        },
        Some(k) => {
            if 0 <= k < s.len() {
                let g = s.skip(k + 1);
                if g.len() == 0 || g == "."@ {
                    name_span(s.take(k))
                } else {
                    Some((k + 1, s.len() as int))
                }
            } else {
                None
            }
        },
    }
}

/// `Path::file_name`.
pub open spec fn file_name(s: Seq<char>) -> Option<Seq<char>> {
    match name_span(s) {
        Some((a, b)) => if s.subrange(a, b) == ".."@ {
            None
        } else {
            Some(s.subrange(a, b))
        },
        None => None,
    }
}

/// Length of the stem part of a file name (up to its last `.`, unless that
/// `.` is the first character).
pub open spec fn stem_len(name: Seq<char>) -> int {
    match rfind_char(name, '.') {
        Some(k) => if k > 0 { k } else { name.len() as int },
        None => name.len() as int,
    }
}

/// `Path::file_stem`.
pub open spec fn file_stem(s: Seq<char>) -> Option<Seq<char>> {
    match file_name(s) {
        Some(n) => Some(n.take(stem_len(n))),
        None => None,
    }
}

/// `Path::extension`.
pub open spec fn extension(s: Seq<char>) -> Option<Seq<char>> {
    match file_name(s) {
        Some(n) => if stem_len(n) < n.len() {
            Some(n.skip(stem_len(n) + 1))
        } else {
            None
        },
        None => None,
    }
}

/// `Path::with_extension(ext)`: cut the string right after the file stem and
/// append `.ext` (nothing when `ext` is empty); unchanged without a file name.
pub open spec fn with_extension(s: Seq<char>, ext: Seq<char>) -> Seq<char> {
    match name_span(s) {
        Some((a, b)) => if s.subrange(a, b) == ".."@ {
            s
        } else {
            s.take(a + stem_len(s.subrange(a, b))) + (if ext.len() > 0 {
                seq!['.'] + ext
            } else {
                Seq::empty()
            })
        },
        None => s,
    }
}

/// `PathBuf::push` of a relative path: a `/` is inserted unless `s` is empty
/// or already ends in `/`.
pub open spec fn push_rel(s: Seq<char>, p: Seq<char>) -> Seq<char> {
    if s.len() > 0 && s.last() != '/' {
        s + seq!['/'] + p
    } else {
        s + p
    }
}

// ---------------------------------------------------------------------------
// Lemmas
// ---------------------------------------------------------------------------

/// Splitting at a separator `k` when the next separator is at `m`.
pub proof fn lemma_rel_comps_step(s: Seq<char>, k: int, m: int)
    requires
        -1 <= k < m <= s.len(),
        k >= 0 ==> s[k] == '/',
        forall|j: int| k < j < m ==> s[j] != '/',
    ensures
        k >= 0 ==> rel_comps(s.take(m)) == rel_comps(s.take(k)) + seg_comp(
            s.subrange(k + 1, m),
        ),
        k < 0 ==> rel_comps(s.take(m)) == seg_comp(s.take(m)),
{
    let t = s.take(m);
    lemma_rfind_char_eq(t, '/', k);
    if k >= 0 {
        assert(t.take(k) == s.take(k));
        assert(t.skip(k + 1) == s.subrange(k + 1, m));
    }
}

// ---------------------------------------------------------------------------
// Executable
// ---------------------------------------------------------------------------

/// One path component, executable form.
pub enum PathComp {
    Root,
    Cur,
    Parent,
    Normal(Vec<char>),
}

impl View for PathComp {
    type V = Comp;

    open spec fn view(&self) -> Comp {
        match self {
            PathComp::Root => Comp::Root,
            PathComp::Cur => Comp::Cur,
            PathComp::Parent => Comp::Parent,
            PathComp::Normal(v) => Comp::Normal(v@),
        }
    }
}

/// View of a component list.
pub open spec fn comps_view(v: Seq<PathComp>) -> Seq<Comp> {
    v.map_values(|c: PathComp| c@)
}

/// Is `cs[a..b]` exactly `"."`?
fn is_dot(cs: &Vec<char>, a: usize, b: usize) -> (r: bool)
    requires
        a <= b <= cs.len(),
    ensures
        r == (cs@.subrange(a as int, b as int) == "."@),
{
    proof {
        reveal_strlit(".");
        assert("."@.len() == 1);
        assert("."@[0] == '.');
    }
    if b - a == 1 && cs[a] == '.' {
        proof { assert(cs@.subrange(a as int, b as int) =~= "."@); }
        true
    } else {
        proof {
            if cs@.subrange(a as int, b as int) == "."@ {
                assert(cs@.subrange(a as int, b as int)[0] == '.');
            }
        }
        false
    }
}

/// Is `cs[a..b]` exactly `".."`?
fn is_dotdot(cs: &Vec<char>, a: usize, b: usize) -> (r: bool)
    requires
        a <= b <= cs.len(),
    ensures
        r == (cs@.subrange(a as int, b as int) == ".."@),
{
    proof {
        reveal_strlit("..");
        assert(".."@.len() == 2);
        assert(".."@[0] == '.');
        assert(".."@[1] == '.');
    }
    if b - a == 2 && cs[a] == '.' && cs[a + 1] == '.' {
        proof { assert(cs@.subrange(a as int, b as int) =~= ".."@); }
        true
    } else {
        proof {
            if cs@.subrange(a as int, b as int) == ".."@ {
                assert(cs@.subrange(a as int, b as int)[0] == '.');
                assert(cs@.subrange(a as int, b as int)[1] == '.');
            }
        }
        false
    }
}

/// Append the component of segment `cs[a..b]` to `out`.
fn push_seg(out: &mut Vec<PathComp>, cs: &Vec<char>, a: usize, b: usize)
    requires
        a <= b <= cs.len(),
    ensures
        comps_view(final(out)@) == comps_view(old(out)@) + seg_comp(cs@.subrange(a as int, b as int)),
{
    let g = Ghost(cs@.subrange(a as int, b as int));
    if b == a || is_dot(cs, a, b) {
        proof { assert(comps_view(out@) == comps_view(out@) + seg_comp(g@)); }
    } else if is_dotdot(cs, a, b) {
        out.push(PathComp::Parent);
        proof { assert(comps_view(out@) =~= comps_view(old(out)@) + seg_comp(g@)); }
    } else {
        let mut v: Vec<char> = Vec::new();
        let mut i = a;
        while i < b
            invariant
                a <= i <= b <= cs.len(),
                v@ == cs@.subrange(a as int, i as int),
            decreases b - i,
        {
            v.push(cs[i]);
            i += 1;
            proof { assert(v@ =~= cs@.subrange(a as int, i as int)); }
        }
        out.push(PathComp::Normal(v));
        proof { assert(comps_view(out@) =~= comps_view(old(out)@) + seg_comp(g@)); }
    }
}

/// Components of `cs[from..]` without root handling (`rel_comps`).
fn rel_components(cs: &Vec<char>, from: usize) -> (r: Vec<PathComp>)
    requires
        from <= cs.len(),
    ensures
        comps_view(r@) == rel_comps(cs@.skip(from as int)),
{
    let ghost s = cs@.skip(from as int);
    let mut out: Vec<PathComp> = Vec::new();
    let mut start = from;
    let mut i = from;
    // `start - 1` is the position of the last separator seen (relative to `s`).
    while i < cs.len()
        invariant
            from <= start <= i <= cs.len(),
            s == cs@.skip(from as int),
            forall|j: int| start <= j < i ==> cs@[j] != '/',
            start > from ==> cs@[start - 1] == '/',
            start > from ==> comps_view(out@) == rel_comps(s.take(start - 1 - from)),
            start == from ==> out@.len() == 0,
        decreases cs.len() - i,
    {
        if cs[i] == '/' {
            let ghost before = out@;
            push_seg(&mut out, cs, start, i);
            proof {
                let k = if start > from { start - 1 - from } else { -1 };
                lemma_rel_comps_step(s, k, i - from);
                assert(s.subrange(k + 1, i - from) == cs@.subrange(start as int, i as int));
                if start == from {
                    assert(comps_view(before) =~= Seq::<Comp>::empty());
                    assert(s.take(i - from) == s.subrange(0, i - from));
                    assert(comps_view(out@) =~= seg_comp(s.take(i - from)));
                }
            }
            start = i + 1;
        }
        i += 1;
    }
    let ghost before = out@;
    push_seg(&mut out, cs, start, cs.len());
    proof {
        let n = s.len() as int;
        let k = if start > from { start - 1 - from } else { -1 };
        lemma_rel_comps_step(s, k, n);
        assert(s.take(n) == s);
        assert(s.subrange(k + 1, n) == cs@.subrange(start as int, cs.len() as int));
        if start == from {
            assert(comps_view(before) =~= Seq::<Comp>::empty());
            assert(cs@.subrange(start as int, cs.len() as int) == s);
            assert(comps_view(out@) =~= seg_comp(s));
        }
    }
    out
}

/// `Path::components` of the path spelled by `cs`.
pub fn path_components(cs: &Vec<char>) -> (r: Vec<PathComp>)
    ensures
        comps_view(r@) == components(cs@),
{
    proof {
        reveal_strlit(".");
        reveal_strlit("./");
        assert("."@.len() == 1 && "."@[0] == '.');
        assert("./"@.len() == 2 && "./"@[0] == '.' && "./"@[1] == '/');
    }
    if cs.len() > 0 && cs[0] == '/' {
        let mut rest = rel_components(cs, 1);
        let ghost rv = rest@;
        let mut out: Vec<PathComp> = Vec::new();
        out.push(PathComp::Root);
        out.append(&mut rest);
        proof { assert(comps_view(out@) =~= seq![Comp::Root] + comps_view(rv)); }
        out
    } else if (cs.len() == 1 && cs[0] == '.') || (cs.len() >= 2 && cs[0] == '.' && cs[1] == '/') {
        let mut rest = rel_components(cs, 1);
        let ghost rv = rest@;
        let mut out: Vec<PathComp> = Vec::new();
        out.push(PathComp::Cur);
        out.append(&mut rest);
        proof {
            assert(comps_view(out@) =~= seq![Comp::Cur] + comps_view(rv));
            if cs.len() >= 2 {
                assert(cs@.take(2) =~= "./"@);
            } else {
                assert(cs@ =~= "."@);
            }
        }
        out
    } else {
        proof {
            assert(cs@.skip(0) == cs@);
            if starts_with(cs@, "./"@) {
                assert(cs@.take(2)[0] == '.');
                assert(cs@.take(2)[1] == '/');
            }
            if cs@ == "."@ {
                assert(cs@[0] == '.');
            }
        }
        rel_components(cs, 0)
    }
}

/// Span of the file name of the path `cs[..e]` (see [`name_span`]).
fn name_span_exec(cs: &Vec<char>, e: usize) -> (r: Option<(usize, usize)>)
    requires
        e <= cs.len(),
    ensures
        r matches Some((a, b)) ==> a <= b <= e && name_span(cs@.take(e as int)) == Some(
            (a as int, b as int),
        ),
        r is None ==> name_span(cs@.take(e as int)) is None,
    decreases e,
{
    let ghost t = cs@.take(e as int);
    let mut k = e;
    while k > 0 && cs[k - 1] != '/'
        invariant
            k <= e <= cs.len(),
            forall|j: int| k <= j < e ==> cs@[j] != '/',
        decreases k,
    {
        k -= 1;
    }
    proof {
        reveal_strlit(".");
        lemma_rfind_char_eq(t, '/', k - 1);
    }
    if k == 0 {
        if e == 0 || is_dot(cs, 0, e) {
            proof { assert(cs@.subrange(0, e as int) == t); }
            None
        } else {
            proof { assert(cs@.subrange(0, e as int) == t); }
            Some((0, e))
        }
    } else {
        proof {
            assert(t.skip(k as int) == cs@.subrange(k as int, e as int));
            assert(t.take(k - 1) == cs@.take(k - 1));
        }
        if k == e || is_dot(cs, k, e) {
            name_span_exec(cs, k - 1)
        } else {
            Some((k, e))
        }
    }
}

/// `stem_len` of the name `cs[a..b]`.
fn stem_len_exec(cs: &Vec<char>, a: usize, b: usize) -> (r: usize)
    requires
        a <= b <= cs.len(),
    ensures
        r as int == stem_len(cs@.subrange(a as int, b as int)),
        r <= b - a,
{
    let ghost n = cs@.subrange(a as int, b as int);
    let mut k = b;
    while k > a && cs[k - 1] != '.'
        invariant
            a <= k <= b <= cs.len(),
            forall|j: int| k <= j < b ==> cs@[j] != '.',
        decreases k,
    {
        k -= 1;
    }
    proof {
        lemma_rfind_char_eq(n, '.', k - a - 1);
    }
    if k == a {
        b - a
    } else if k - 1 == a {
        b - a
    } else {
        k - 1 - a
    }
}

/// Span of the file name of `cs` (`Path::file_name`).
pub fn file_name_span(cs: &Vec<char>) -> (r: Option<(usize, usize)>)
    ensures
        r matches Some((a, b)) ==> a <= b <= cs.len() && file_name(cs@) == Some(
            cs@.subrange(a as int, b as int),
        ),
        r is None ==> file_name(cs@) is None,
{
    proof { assert(cs@.take(cs.len() as int) == cs@); }
    match name_span_exec(cs, cs.len()) {
        Some((a, b)) => {
            if is_dotdot(cs, a, b) {
                None
            } else {
                Some((a, b))
            }
        },
        None => None,
    }
}

/// Span of the file stem of `cs` (`Path::file_stem`).
pub fn file_stem_span(cs: &Vec<char>) -> (r: Option<(usize, usize)>)
    ensures
        r matches Some((a, b)) ==> a <= b <= cs.len() && file_stem(cs@) == Some(
            cs@.subrange(a as int, b as int),
        ),
        r is None ==> file_stem(cs@) is None,
{
    match file_name_span(cs) {
        Some((a, b)) => {
            let l = stem_len_exec(cs, a, b);
            proof {
                assert(cs@.subrange(a as int, b as int).take(l as int) == cs@.subrange(
                    a as int,
                    a + l,
                ));
            }
            Some((a, a + l))
        },
        None => None,
    }
}

/// Span of the extension of `cs` (`Path::extension`).
pub fn extension_span(cs: &Vec<char>) -> (r: Option<(usize, usize)>)
    ensures
        r matches Some((a, b)) ==> a <= b <= cs.len() && extension(cs@) == Some(
            cs@.subrange(a as int, b as int),
        ),
        r is None ==> extension(cs@) is None,
{
    match file_name_span(cs) {
        Some((a, b)) => {
            let l = stem_len_exec(cs, a, b);
            if l < b - a {
                proof {
                    assert(cs@.subrange(a as int, b as int).skip(l + 1) == cs@.subrange(
                        a + l + 1,
                        b as int,
                    ));
                }
                Some((a + l + 1, b))
            } else {
                None
            }
        },
        None => None,
    }
}

/// Does the path `cs` have extension `ext`?
pub fn has_extension(cs: &Vec<char>, ext: &str) -> (r: bool)
    ensures
        r == (extension(cs@) == Some(ext@)),
{
    match extension_span(cs) {
        Some((a, b)) => {
            let e = chars_of(ext);
            let x = crate::text::string_of_range(cs, a, b);
            let xv = chars_of(x.as_str());
            chars_eq(&xv, &e)
        },
        None => false,
    }
}

/// `Path::with_extension(ext)` on the path `cs`.
pub fn with_extension_exec(cs: &Vec<char>, ext: &str) -> (r: String)
    ensures
        r@ == with_extension(cs@, ext@),
{
    proof { assert(cs@.take(cs.len() as int) == cs@); }
    let e = chars_of(ext);
    match name_span_exec(cs, cs.len()) {
        Some((a, b)) => {
            if is_dotdot(cs, a, b) {
                string_of(cs)
            } else {
                let l = stem_len_exec(cs, a, b);
                let mut out = crate::text::string_of_range(cs, 0, a + l);
                if e.len() > 0 {
                    push_char(&mut out, '.');
                    out.append(ext);
                    proof {
                        assert(cs@.subrange(0, a + l) + seq!['.'] + ext@ == cs@.take(a + l) + (
                        seq!['.'] + ext@));
                    }
                } else {
                    proof { assert(cs@.subrange(0, a + l) == cs@.take(a + l) + Seq::<char>::empty()); }
                }
                out
            }
        },
        None => string_of(cs),
    }
}

/// `PathBuf::push` of the relative path `p` onto `s`.
pub fn push_rel_exec(s: &mut String, p: &str)
    ensures
        final(s)@ == push_rel(old(s)@, p@),
{
    let cs = chars_of(s.as_str());
    if cs.len() > 0 && cs[cs.len() - 1] != '/' {
        push_char(s, '/');
    }
    s.append(p);
}

/// `Path::parent` on a component list.
pub fn parent_exec(c: &Vec<PathComp>) -> (r: Option<Vec<PathComp>>)
    ensures
        r matches Some(p) ==> parent_comps(comps_view(c@)) == Some(comps_view(p@)),
        r is None ==> parent_comps(comps_view(c@)) is None,
{
    if c.len() == 0 {
        return None;
    }
    if let PathComp::Root = c[c.len() - 1] {
        return None;
    }
    let mut out: Vec<PathComp> = Vec::new();
    let mut i: usize = 0;
    while i + 1 < c.len()
        invariant
            i + 1 <= c.len(),
            out@.len() == i,
            forall|j: int| 0 <= j < i ==> out@[j]@ == c@[j]@,
        decreases c.len() - i,
    {
        out.push(comp_clone(&c[i]));
        i += 1;
    }
    proof {
        assert(comps_view(c@).last() == c@.last()@);
        assert(comps_view(out@) =~= comps_view(c@).drop_last());
    }
    Some(out)
}

/// A copy of a component.
pub fn comp_clone(c: &PathComp) -> (r: PathComp)
    ensures
        r@ == c@,
{
    match c {
        PathComp::Root => PathComp::Root,
        PathComp::Cur => PathComp::Cur,
        PathComp::Parent => PathComp::Parent,
        PathComp::Normal(v) => PathComp::Normal(v.clone()),
    }
}

/// Component equality.
pub fn comp_eq(x: &PathComp, y: &PathComp) -> (r: bool)
    ensures
        r == (x@ == y@),
{
    match (x, y) {
        (PathComp::Root, PathComp::Root) => true,
        (PathComp::Cur, PathComp::Cur) => true,
        (PathComp::Parent, PathComp::Parent) => true,
        (PathComp::Normal(a), PathComp::Normal(b)) => chars_eq(a, b),
        _ => false,
    }
}

/// Component-list equality (`Path`'s `==`).
pub fn comps_eq(x: &Vec<PathComp>, y: &Vec<PathComp>) -> (r: bool)
    ensures
        r == (comps_view(x@) == comps_view(y@)),
{
    if x.len() != y.len() {
        proof { assert(comps_view(x@).len() != comps_view(y@).len()); }
        return false;
    }
    let mut i: usize = 0;
    while i < x.len()
        invariant
            i <= x.len() == y.len(),
            forall|j: int| 0 <= j < i ==> x@[j]@ == y@[j]@,
        decreases x.len() - i,
    {
        if !comp_eq(&x[i], &y[i]) {
            proof { assert(comps_view(x@)[i as int] != comps_view(y@)[i as int]); }
            return false;
        }
        i += 1;
    }
    proof { assert(comps_view(x@) =~= comps_view(y@)); }
    true
}

} // verus!
