//! A YAML value as the library reads it: frontmatter, config blocks, archive
//! headers. Text is parsed into this shape outside the library; the library
//! only reads and builds values.

use vstd::prelude::*;
use crate::text::str_eq;

verus! {

broadcast use vstd::std_specs::vec::group_vec_axioms;

/// A YAML value. Numbers that are integers are held exactly; other numbers are
/// kept by their text, since the library never computes with them.
pub enum Yaml {
    Null,
    Bool(bool),
    Int(i128),
    Float(String),
    Str(String),
    List(Vec<Yaml>),
    Dict(Vec<(Yaml, Yaml)>),
    Tagged(String, Box<Yaml>),
}

/// A YAML mapping: key/value pairs in document order.
pub type Mapping = Vec<(Yaml, Yaml)>;

/// `v` is the string `s`.
pub open spec fn is_str(v: Yaml, s: Seq<char>) -> bool {
    v matches Yaml::Str(t) && t@ == s
}

/// First position of the string key `key` in a mapping, if any.
pub open spec fn key_pos(m: Seq<(Yaml, Yaml)>, key: Seq<char>, from: int) -> Option<int>
    decreases m.len() - from,
{
    if from < 0 || from >= m.len() {
        None
    } else if is_str(m[from].0, key) {
        Some(from)
    } else {
        key_pos(m, key, from + 1)
    }
}

/// `Mapping::get(key)` for a string key: the value of the first entry whose
/// key is that string.
pub open spec fn map_get(m: Seq<(Yaml, Yaml)>, key: Seq<char>) -> Option<Yaml> {
    match key_pos(m, key, 0) {
        Some(i) => Some(m[i].1),
        None => None,
    }
}

/// The value under any tags: `!tag value` reads as `value`.
pub open spec fn untag(v: Yaml) -> Yaml
    decreases v,
{
    match v {
        Yaml::Tagged(_, b) => untag(*b),
        _ => v,
    }
}

/// `Value::as_str`.
pub open spec fn str_of(v: Yaml) -> Option<Seq<char>> {
    match untag(v) {
        Yaml::Str(s) => Some(s@),
        _ => None,
    }
}

/// `Value::as_mapping`: the mapping under any tags.
pub open spec fn dict_of(v: Yaml) -> Option<Seq<(Yaml, Yaml)>> {
    match untag(v) {
        Yaml::Dict(m) => Some(m@),
        _ => None,
    }
}

/// `Value::as_sequence`: the sequence under any tags.
pub open spec fn list_of(v: Yaml) -> Option<Seq<Yaml>> {
    match untag(v) {
        Yaml::List(l) => Some(l@),
        _ => None,
    }
}

/// `Value::as_u64`: a non-negative integer that fits in `u64`.
pub open spec fn u64_of(v: Yaml) -> Option<u64> {
    match untag(v) {
        Yaml::Int(n) => if 0 <= n <= u64::MAX {
            Some(n as u64)
        } else {
            None
        },
        _ => None,
    }
}

/// `Value::as_i64`: an integer that fits in `i64`.
pub open spec fn i64_of(v: Yaml) -> Option<i64> {
    match untag(v) {
        Yaml::Int(n) => if i64::MIN <= n <= i64::MAX {
            Some(n as i64)
        } else {
            None
        },
        _ => None,
    }
}

/// `data.get(key).and_then(as_str)`.
pub open spec fn str_field(d: Seq<(Yaml, Yaml)>, key: Seq<char>) -> Option<Seq<char>> {
    match map_get(d, key) {
        Some(v) => str_of(v),
        None => None,
    }
}

/// `data.get(key).and_then(as_u64).map(|n| n as usize)`.
pub open spec fn size_field(d: Seq<(Yaml, Yaml)>, key: Seq<char>) -> Option<usize> {
    match map_get(d, key) {
        Some(v) => match u64_of(v) {
            Some(n) => Some(n as usize),
            None => None,
        },
        None => None,
    }
}

pub proof fn lemma_key_pos(m: Seq<(Yaml, Yaml)>, key: Seq<char>, from: int)
    requires
        0 <= from,
    ensures
        key_pos(m, key, from) matches Some(i) ==> from <= i < m.len() && is_str(m[i].0, key),
    decreases m.len() - from,
{
    if from < m.len() && !is_str(m[from].0, key) {
        lemma_key_pos(m, key, from + 1);
    }
}

/// The value under any tags (`Value::untag_ref`).
pub fn untag_ref(v: &Yaml) -> (r: &Yaml)
    ensures
        *r == untag(*v),
    decreases v,
{
    match v {
        Yaml::Tagged(_, b) => untag_ref(b),
        _ => v,
    }
}

/// `Value::as_str`.
pub fn as_str(v: &Yaml) -> (r: Option<&str>)
    ensures
        r matches Some(s) ==> str_of(*v) == Some(s@),
        r is None ==> str_of(*v) is None,
{
    match untag_ref(v) {
        Yaml::Str(s) => Some(s.as_str()),
        _ => None,
    }
}

/// `Value::as_mapping`.
pub fn as_mapping(v: &Yaml) -> (r: Option<&Mapping>)
    ensures
        match r {
            Some(m) => dict_of(*v) == Some(m@),
            None => dict_of(*v) is None,
        },
{
    match untag_ref(v) {
        Yaml::Dict(m) => Some(m),
        _ => None,
    }
}

/// `Value::as_sequence`.
pub fn as_sequence(v: &Yaml) -> (r: Option<&Vec<Yaml>>)
    ensures
        match r {
            Some(l) => list_of(*v) == Some(l@),
            None => list_of(*v) is None,
        },
{
    match untag_ref(v) {
        Yaml::List(l) => Some(l),
        _ => None,
    }
}

/// `Value::as_u64`.
pub fn as_u64(v: &Yaml) -> (r: Option<u64>)
    ensures
        r == u64_of(*v),
{
    match untag_ref(v) {
        Yaml::Int(n) => if 0 <= *n && *n <= u64::MAX as i128 {
            Some(*n as u64)
        } else {
            None
        },
        _ => None,
    }
}

/// `Value::as_i64`.
pub fn as_i64(v: &Yaml) -> (r: Option<i64>)
    ensures
        r == i64_of(*v),
{
    match untag_ref(v) {
        Yaml::Int(n) => if i64::MIN as i128 <= *n && *n <= i64::MAX as i128 {
            Some(*n as i64)
        } else {
            None
        },
        _ => None,
    }
}

/// Is `v` the string `key`?
pub fn key_is(v: &Yaml, key: &str) -> (r: bool)
    ensures
        r == is_str(*v, key@),
{
    match v {
        Yaml::Str(s) => str_eq(s.as_str(), key),
        _ => false,
    }
}

/// `Mapping::get(key)` for a string key.
pub fn get<'a>(m: &'a Mapping, key: &str) -> (r: Option<&'a Yaml>)
    ensures
        r matches Some(v) ==> map_get(m@, key@) == Some(*v),
        r is None ==> map_get(m@, key@) is None,
{
    let mut i: usize = 0;
    while i < m.len()
        invariant
            i <= m.len(),
            key_pos(m@, key@, 0) == key_pos(m@, key@, i as int),
        decreases m.len() - i,
    {
        if key_is(&m[i].0, key) {
            return Some(&m[i].1);
        }
        i += 1;
    }
    None
}

/// `Mapping::contains_key(key)` for a string key.
pub fn contains_key(m: &Mapping, key: &str) -> (r: bool)
    ensures
        r == (map_get(m@, key@) is Some),
{
    match get(m, key) {
        Some(_) => true,
        None => false,
    }
}

/// A YAML value as plain data: what a value means, independent of where it
/// is stored. Two values are equal as YAML exactly when their views are.
pub enum YamlV {
    Null,
    Bool(bool),
    Int(i128),
    Float(Seq<char>),
    Str(Seq<char>),
    List(Seq<YamlV>),
    Dict(Seq<(YamlV, YamlV)>),
    Tagged(Seq<char>, Box<YamlV>),
}

/// The plain view of a YAML value.
pub open spec fn yv(a: Yaml) -> YamlV
    decreases a, 0nat,
{
    match a {
        Yaml::Null => YamlV::Null,
        Yaml::Bool(b) => YamlV::Bool(b),
        Yaml::Int(n) => YamlV::Int(n),
        Yaml::Float(s) => YamlV::Float(s@),
        Yaml::Str(s) => YamlV::Str(s@),
        Yaml::List(xs) => YamlV::List(yv_list(xs@, 0)),
        Yaml::Dict(m) => YamlV::Dict(yv_map(m@, 0)),
        Yaml::Tagged(t, x) => YamlV::Tagged(t@, Box::new(yv(*x))),
    }
}

/// Views of `xs[i..]`.
pub open spec fn yv_list(xs: Seq<Yaml>, i: int) -> Seq<YamlV>
    decreases xs, xs.len() - i,
{
    if i < 0 || i >= xs.len() {
        Seq::empty()
    } else {
        seq![yv(xs[i])] + yv_list(xs, i + 1)
    }
}

/// Views of the entries `m[i..]`.
pub open spec fn yv_map(m: Seq<(Yaml, Yaml)>, i: int) -> Seq<(YamlV, YamlV)>
    decreases m, m.len() - i,
{
    if i < 0 || i >= m.len() {
        Seq::empty()
    } else {
        seq![(yv(m[i].0), yv(m[i].1))] + yv_map(m, i + 1)
    }
}

/// The plain view of a mapping.
pub open spec fn yvm(m: Seq<(Yaml, Yaml)>) -> Seq<(YamlV, YamlV)> {
    yv_map(m, 0)
}

/// The plain view of a list.
pub open spec fn yvs(xs: Seq<Yaml>) -> Seq<YamlV> {
    yv_list(xs, 0)
}

pub proof fn lemma_yv_list(xs: Seq<Yaml>, i: int)
    requires
        0 <= i <= xs.len(),
    ensures
        yv_list(xs, i).len() == xs.len() - i,
        forall|j: int| i <= j < xs.len() ==> yv_list(xs, i)[j - i] == yv(#[trigger] xs[j]),
    decreases xs.len() - i,
{
    if i < xs.len() {
        lemma_yv_list(xs, i + 1);
    }
}

pub proof fn lemma_yv_map(m: Seq<(Yaml, Yaml)>, i: int)
    requires
        0 <= i <= m.len(),
    ensures
        yv_map(m, i).len() == m.len() - i,
        forall|j: int| i <= j < m.len() ==> yv_map(m, i)[j - i] == (yv((#[trigger] m[j]).0), yv(m[j].1)),
    decreases m.len() - i,
{
    if i < m.len() {
        lemma_yv_map(m, i + 1);
    }
}

/// `yvs` entry by entry.
pub proof fn lemma_yvs(xs: Seq<Yaml>)
    ensures
        yvs(xs).len() == xs.len(),
        forall|j: int| 0 <= j < xs.len() ==> #[trigger] yvs(xs)[j] == yv(xs[j]),
{
    lemma_yv_list(xs, 0);
    assert forall|j: int| 0 <= j < xs.len() implies #[trigger] yvs(xs)[j] == yv(xs[j]) by {
        assert(yv_list(xs, 0)[j - 0] == yv(xs[j]));
    }
}

/// `yvm` entry by entry.
pub proof fn lemma_yvm(m: Seq<(Yaml, Yaml)>)
    ensures
        yvm(m).len() == m.len(),
        forall|j: int| 0 <= j < m.len() ==> #[trigger] yvm(m)[j] == (yv(m[j].0), yv(m[j].1)),
{
    lemma_yv_map(m, 0);
    assert forall|j: int| 0 <= j < m.len() implies #[trigger] yvm(m)[j] == (yv(m[j].0), yv(m[j].1)) by {
        assert(yv_map(m, 0)[j - 0] == (yv(m[j].0), yv(m[j].1)));
    }
}

/// Mappings with the same entries as YAML.
pub open spec fn map_eq(a: Seq<(Yaml, Yaml)>, b: Seq<(Yaml, Yaml)>) -> bool {
    yvm(a) == yvm(b)
}

/// Entry-wise equal mappings have equal views.
pub proof fn lemma_yvm_ext(a: Seq<(Yaml, Yaml)>, b: Seq<(Yaml, Yaml)>)
    requires
        a.len() == b.len(),
        forall|j: int| 0 <= j < a.len() ==> yv(#[trigger] a[j].0) == yv(b[j].0) && yv(a[j].1) == yv(b[j].1),
    ensures
        yvm(a) == yvm(b),
{
    lemma_yvm(a);
    lemma_yvm(b);
    assert(yvm(a) =~= yvm(b));
}

/// A copy of a YAML value.
pub fn yaml_clone(v: &Yaml) -> (r: Yaml)
    ensures
        yv(r) == yv(*v),
    decreases v,
{
    match v {
        Yaml::Null => Yaml::Null,
        Yaml::Bool(b) => Yaml::Bool(*b),
        Yaml::Int(n) => Yaml::Int(*n),
        Yaml::Float(s) => Yaml::Float(s.clone()),
        Yaml::Str(s) => Yaml::Str(s.clone()),
        Yaml::List(xs) => {
            let mut out: Vec<Yaml> = Vec::new();
            let mut i: usize = 0;
            while i < xs.len()
                invariant
                    i <= xs.len(),
                    *v == Yaml::List(*xs),
                    out@.len() == i,
                    forall|j: int| 0 <= j < i ==> yv(#[trigger] out@[j]) == yv(xs@[j]),
                decreases xs.len() - i,
            {
                proof {
                    assert(decreases_to!(*v => (*v)->List_0));
                    assert(decreases_to!((*v)->List_0 => (*v)->List_0[i as int]));
                }
                let c = yaml_clone(&xs[i]);
                out.push(c);
                i += 1;
            }
            proof {
                lemma_yvs(out@);
                lemma_yvs(xs@);
                assert(yvs(out@) =~= yvs(xs@));
            }
            Yaml::List(out)
        },
        Yaml::Dict(m) => {
            let mut out: Vec<(Yaml, Yaml)> = Vec::new();
            let mut i: usize = 0;
            while i < m.len()
                invariant
                    i <= m.len(),
                    *v == Yaml::Dict(*m),
                    out@.len() == i,
                    forall|j: int|
                        0 <= j < i ==> yv(#[trigger] out@[j].0) == yv(m@[j].0) && yv(out@[j].1) == yv(m@[j].1),
                decreases m.len() - i,
            {
                proof {
                    assert(decreases_to!(*v => (*v)->Dict_0));
                    assert(decreases_to!((*v)->Dict_0 => (*v)->Dict_0[i as int]));
                    assert(decreases_to!((*v)->Dict_0[i as int] => (*v)->Dict_0[i as int].0));
                    assert(decreases_to!((*v)->Dict_0[i as int] => (*v)->Dict_0[i as int].1));
                }
                let k = yaml_clone(&m[i].0);
                let x = yaml_clone(&m[i].1);
                out.push((k, x));
                i += 1;
            }
            proof { lemma_yvm_ext(out@, m@); }
            Yaml::Dict(out)
        },
        Yaml::Tagged(t, b) => {
            proof {
                assert(decreases_to!(*v => (*v)->Tagged_1));
            }
            Yaml::Tagged(t.clone(), Box::new(yaml_clone(b)))
        },
    }
}

/// A copy of a mapping.
pub fn mapping_clone(m: &Mapping) -> (r: Mapping)
    ensures
        map_eq(r@, m@),
{
    let mut out: Vec<(Yaml, Yaml)> = Vec::new();
    let mut i: usize = 0;
    while i < m.len()
        invariant
            i <= m.len(),
            out@.len() == i,
            forall|j: int| 0 <= j < i ==> yv(#[trigger] out@[j].0) == yv(m@[j].0) && yv(out@[j].1) == yv(m@[j].1),
        decreases m.len() - i,
    {
        let k = yaml_clone(&m[i].0);
        let x = yaml_clone(&m[i].1);
        out.push((k, x));
        i += 1;
    }
    proof { lemma_yvm_ext(out@, m@); }
    out
}

/// Equality as YAML values.
pub fn yaml_eq(a: &Yaml, b: &Yaml) -> (r: bool)
    ensures
        r == (yv(*a) == yv(*b)),
    decreases a,
{
    match (a, b) {
        (Yaml::Null, Yaml::Null) => true,
        (Yaml::Bool(x), Yaml::Bool(y)) => *x == *y,
        (Yaml::Int(x), Yaml::Int(y)) => *x == *y,
        (Yaml::Float(x), Yaml::Float(y)) => str_eq(x.as_str(), y.as_str()),
        (Yaml::Str(x), Yaml::Str(y)) => str_eq(x.as_str(), y.as_str()),
        (Yaml::List(xs), Yaml::List(ys)) => {
            proof {
                lemma_yvs(xs@);
                lemma_yvs(ys@);
            }
            if xs.len() != ys.len() {
                return false;
            }
            let mut i: usize = 0;
            while i < xs.len()
                invariant
                    i <= xs.len(),
                    xs.len() == ys.len(),
                    *a == Yaml::List(*xs),
                    *b == Yaml::List(*ys),
                    forall|j: int| 0 <= j < i ==> yv(#[trigger] xs@[j]) == yv(ys@[j]),
                decreases xs.len() - i,
            {
                proof {
                    assert(decreases_to!(*a => (*a)->List_0));
                    assert(decreases_to!((*a)->List_0 => (*a)->List_0[i as int]));
                }
                if !yaml_eq(&xs[i], &ys[i]) {
                    proof {
                        lemma_yvs(xs@);
                        lemma_yvs(ys@);
                        assert(yvs(xs@)[i as int] != yvs(ys@)[i as int]);
                    }
                    return false;
                }
                i += 1;
            }
            proof {
                lemma_yvs(xs@);
                lemma_yvs(ys@);
                assert(yvs(xs@) =~= yvs(ys@));
            }
            true
        },
        (Yaml::Dict(m), Yaml::Dict(n)) => {
            proof {
                lemma_yvm(m@);
                lemma_yvm(n@);
            }
            if m.len() != n.len() {
                return false;
            }
            let mut i: usize = 0;
            while i < m.len()
                invariant
                    i <= m.len(),
                    m.len() == n.len(),
                    *a == Yaml::Dict(*m),
                    *b == Yaml::Dict(*n),
                    forall|j: int| 0 <= j < i ==> yv(#[trigger] m@[j].0) == yv(n@[j].0) && yv(m@[j].1) == yv(n@[j].1),
                decreases m.len() - i,
            {
                proof {
                    assert(decreases_to!(*a => (*a)->Dict_0));
                    assert(decreases_to!((*a)->Dict_0 => (*a)->Dict_0[i as int]));
                    assert(decreases_to!((*a)->Dict_0[i as int] => (*a)->Dict_0[i as int].0));
                    assert(decreases_to!((*a)->Dict_0[i as int] => (*a)->Dict_0[i as int].1));
                }
                if !yaml_eq(&m[i].0, &n[i].0) || !yaml_eq(&m[i].1, &n[i].1) {
                    proof {
                        lemma_yvm(m@);
                        lemma_yvm(n@);
                        assert(yvm(m@)[i as int] != yvm(n@)[i as int]);
                    }
                    return false;
                }
                i += 1;
            }
            proof { lemma_yvm_ext(m@, n@); }
            true
        },
        (Yaml::Tagged(t, x), Yaml::Tagged(u, y)) => {
            proof {
                assert(decreases_to!(*a => (*a)->Tagged_1));
            }
            str_eq(t.as_str(), u.as_str()) && yaml_eq(x, y)
        },
        _ => false,
    }
}

// ---------------------------------------------------------------------------
// Mapping edits
// ---------------------------------------------------------------------------

/// First position at or after `from` whose key is `k`.
pub open spec fn ykey_pos(m: Seq<(YamlV, YamlV)>, k: YamlV, from: int) -> Option<int>
    decreases m.len() - from,
{
    if from < 0 || from >= m.len() {
        None
    } else if m[from].0 == k {
        Some(from)
    } else {
        ykey_pos(m, k, from + 1)
    }
}

/// `Mapping::insert`: replace the value of an existing key in place, or
/// append the entry.
pub open spec fn ymap_insert(m: Seq<(YamlV, YamlV)>, k: YamlV, v: YamlV) -> Seq<(YamlV, YamlV)> {
    match ykey_pos(m, k, 0) {
        Some(i) => m.update(i, (k, v)),
        None => m.push((k, v)),
    }
}

/// `Mapping::get`: the value of the first entry with key `k`.
pub open spec fn ymap_get(m: Seq<(YamlV, YamlV)>, k: YamlV) -> Option<YamlV> {
    match ykey_pos(m, k, 0) {
        Some(i) => Some(m[i].1),
        None => None,
    }
}

pub proof fn lemma_ykey_pos(m: Seq<(YamlV, YamlV)>, k: YamlV, from: int)
    requires
        0 <= from,
    ensures
        ykey_pos(m, k, from) matches Some(i) ==> from <= i < m.len() && m[i].0 == k && forall|j: int| from <= j < i ==> m[j].0 != k,
        ykey_pos(m, k, from) is None ==> forall|j: int| from <= j < m.len() ==> m[j].0 != k,
    decreases m.len() - from,
{
    if from < m.len() && m[from].0 != k {
        lemma_ykey_pos(m, k, from + 1);
    }
}

/// Position of the first entry of `m` with key `k`.
pub fn find_ykey(m: &Mapping, k: &Yaml) -> (r: Option<usize>)
    ensures
        match r {
            Some(i) => ykey_pos(yvm(m@), yv(*k), 0) == Some(i as int),
            None => ykey_pos(yvm(m@), yv(*k), 0) is None,
        },
{
    proof { lemma_yvm(m@); }
    let mut i: usize = 0;
    while i < m.len()
        invariant
            i <= m@.len(),
            yvm(m@).len() == m@.len(),
            forall|j: int| 0 <= j < m@.len() ==> #[trigger] yvm(m@)[j] == (yv(m@[j].0), yv(m@[j].1)),
            ykey_pos(yvm(m@), yv(*k), 0) == ykey_pos(yvm(m@), yv(*k), i as int),
        decreases m.len() - i,
    {
        if yaml_eq(&m[i].0, k) {
            return Some(i);
        }
        i += 1;
    }
    None
}

/// `Mapping::insert(k, v)`.
pub fn map_insert(m: &mut Mapping, k: Yaml, v: Yaml)
    ensures
        yvm(final(m)@) == ymap_insert(yvm(old(m)@), yv(k), yv(v)),
{
    let ghost mv = yvm(m@);
    let ghost old_m = m@;
    proof {
        lemma_yvm(m@);
        lemma_ykey_pos(mv, yv(k), 0);
    }
    match find_ykey(m, &k) {
        Some(i) => {
            let ghost kv = (yv(k), yv(v));
            m.set(i, (k, v));
            proof {
                lemma_yvm(m@);
                assert forall|j: int| 0 <= j < m@.len() implies #[trigger] yvm(m@)[j] == mv.update(i as int, kv)[j] by {
                    if j != i {
                        assert(m@[j] == old_m[j]);
                    }
                }
                assert(yvm(m@) =~= mv.update(i as int, kv));
            }
        },
        None => {
            let ghost kv = (yv(k), yv(v));
            m.push((k, v));
            proof {
                lemma_yvm(m@);
                assert(yvm(m@) =~= mv.push(kv));
            }
        },
    }
}

/// Merge the first `i` entries of `o` into `b`: a mapping value merges into
/// a mapping already under its key, key by key; any other value (or a type
/// mismatch) replaces or is appended, as `Mapping::insert` does.
pub open spec fn dmerge(b: Seq<(YamlV, YamlV)>, o: Seq<(YamlV, YamlV)>, i: int) -> Seq<(YamlV, YamlV)>
    decreases o, i,
{
    if i <= 0 || i > o.len() {
        b
    } else {
        let acc = dmerge(b, o, i - 1);
        let k = o[i - 1].0;
        let v = o[i - 1].1;
        match v {
            YamlV::Dict(om) => match ykey_pos(acc, k, 0) {
                Some(p) => match acc[p].1 {
                    YamlV::Dict(bm) => {
                        proof {
                            assert(decreases_to!(o => o[i - 1]));
                            assert(decreases_to!(o[i - 1] => o[i - 1].1));
                            assert(decreases_to!(o[i - 1].1 => om));
                        }
                        acc.update(p, (acc[p].0, YamlV::Dict(dmerge(bm, om, om.len() as int))))
                    },
                    _ => ymap_insert(acc, k, v),
                },
                None => ymap_insert(acc, k, v),
            },
            _ => ymap_insert(acc, k, v),
        }
    }
}

/// Recursively merge `over` into `base`: nested mappings merge key by key;
/// any other value (or a type mismatch) replaces. Used to layer the site's
/// `site:` map over the theme's, the site winning.
pub fn deep_merge(base: &mut Mapping, over: Mapping)
    ensures
        yvm(final(base)@) == dmerge(yvm(old(base)@), yvm(over@), over@.len() as int),
    decreases over@,
{
    let ghost g_over = over;
    let ghost ov = yvm(over@);
    let ghost orig = over@;
    proof {
        lemma_yvm(over@);
        assert(ov.len() == over@.len());
    }
    let mut rest = over;
    let mut i: usize = 0;
    let n = rest.len();
    while i < n
        invariant
            n == orig.len(),
            orig == g_over@,
            g_over == over,
            i <= n,
            ov == yvm(orig),
            ov.len() == orig.len(),
            forall|j: int| 0 <= j < orig.len() ==> #[trigger] ov[j] == (yv(orig[j].0), yv(orig[j].1)),
            rest@ == orig.skip(i as int),
            yvm(base@) == dmerge(yvm(old(base)@), ov, i as int),
        decreases n - i,
    {
        let (k, v) = rest.remove(0);
        proof {
            assert(orig.skip(i as int)[0] == orig[i as int]);
            assert(rest@ =~= orig.skip(i + 1));
        }
        let ghost acc = yvm(base@);
        proof { lemma_yvm(base@); }
        let mut merged = false;
        match v {
            Yaml::Dict(om) => {
                match find_ykey(base, &k) {
                    Some(p) => {
                        proof { lemma_ykey_pos(acc, yv(k), 0); }
                        let is_dict = match &base[p].1 {
                            Yaml::Dict(_) => true,
                            _ => false,
                        };
                        if is_dict {
                            let (bk, bv) = base.remove(p);
                            let mut bm = match bv {
                                Yaml::Dict(bm) => bm,
                                _ => Vec::new(),
                            };
                            proof {
                                assert(orig[i as int].1 == Yaml::Dict(om));
                                assert(decreases_to!(g_over => g_over@));
                                assert(decreases_to!(g_over@ => g_over@[i as int]));
                                assert(decreases_to!(g_over@[i as int] => g_over@[i as int].1));
                                assert(decreases_to!(g_over@[i as int].1 => om));
                                assert(decreases_to!(om => om@));
                                assert(decreases_to!(g_over@ => om@));
                                lemma_yvm(om@);
                                lemma_yvm(bm@);
                            }
                            deep_merge(&mut bm, om);
                            let ghost before_insert = base@;
                            base.insert(p, (bk, Yaml::Dict(bm)));
                            proof {
                                lemma_yvm(base@);
                                lemma_yvm(before_insert);
                                assert(yvm(base@) =~= acc.update(p as int, (acc[p as int].0, YamlV::Dict(yvm(bm@))))) by {
                                    assert forall|j: int| 0 <= j < base@.len() implies #[trigger] yvm(base@)[j] == acc.update(p as int, (acc[p as int].0, YamlV::Dict(yvm(bm@))))[j] by {
                                        if j < p {
                                            assert(base@[j] == before_insert[j]);
                                        } else if j > p {
                                            assert(base@[j] == before_insert[j - 1]);
                                        }
                                    }
                                }
                            }
                            merged = true;
                        } else {
                            map_insert(base, k, Yaml::Dict(om));
                        }
                    },
                    None => {
                        map_insert(base, k, Yaml::Dict(om));
                    },
                }
            },
            other => {
                map_insert(base, k, other);
            },
        }
        i += 1;
    }
}

} // verus!
