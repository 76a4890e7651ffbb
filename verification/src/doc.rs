//! Documents: their kind, metadata, and the frontmatter fields uplifted from
//! their raw data.

use vstd::prelude::*;
use crate::date::{parse_date_spec, parse_date_str, Date};
use crate::paths::{extension, has_extension, with_extension};
use crate::permalink::{default_for, expand, expand_spec};
use crate::slug::{slugify, slugify_spec};
use crate::sorted::{find_slot, has_key, insert_absent, keys_sorted, lookup};
use crate::text::chars_of;
use crate::yaml::{
    as_str, get, lemma_yvm, map_get, str_field, str_of, yaml_clone, yaml_eq, yv, yvm, Mapping,
    Yaml, YamlV,
};

verus! {

/// How a doc's body is rendered, derived from its `id_path` extension.
#[derive(Debug, Clone, Copy, PartialEq, Eq, Structural)]
pub enum DocKind {
    Markdown,
    Raw,
    Yaml,
}

/// `.md` is Markdown, `.yaml`/`.yml` is YAML, anything else is raw.
pub open spec fn kind_of(path: Seq<char>) -> DocKind {
    if extension(path) == Some("md"@) {
        DocKind::Markdown
    } else if extension(path) == Some("yaml"@) || extension(path) == Some("yml"@) {
        DocKind::Yaml
    } else {
        DocKind::Raw
    }
}

impl DocKind {
    /// The kind of the doc at `path`, from its extension.
    pub fn from_path(path: &str) -> (r: DocKind)
        ensures
            r == kind_of(path@),
    {
        let cs = chars_of(path);
        if has_extension(&cs, "md") {
            DocKind::Markdown
        } else if has_extension(&cs, "yaml") || has_extension(&cs, "yml") {
            DocKind::Yaml
        } else {
            DocKind::Raw
        }
    }
}

// ---------------------------------------------------------------------------
// Terms
// ---------------------------------------------------------------------------

/// One taxonomy's terms of a doc: slug → display text, sorted by slug.
pub type Bucket = Vec<(String, String)>;

/// A doc's term memberships: taxonomy name → bucket, sorted by name.
pub type Terms = Vec<(String, Bucket)>;

/// Display text under slug `s`.
pub open spec fn text_of(b: Seq<(String, String)>, s: Seq<char>) -> Option<Seq<char>> {
    match lookup(b, s) {
        Some(t) => Some(t@),
        None => None,
    }
}

/// Display text of the first string among `items` whose (non-empty) slug is
/// `s`: the first write wins.
pub open spec fn first_term(items: Seq<Yaml>, s: Seq<char>) -> Option<Seq<char>>
    decreases items.len(),
{
    if items.len() == 0 {
        None
    } else {
        match first_term(items.drop_last(), s) {
            Some(t) => Some(t),
            None => match str_of(items.last()) {
                Some(t) => if s.len() > 0 && slugify_spec(t) == s {
                    Some(t)
                } else {
                    None
                },
                None => None,
            },
        }
    }
}

/// The sequence under frontmatter field `name`, or nothing.
pub open spec fn term_list(data: Seq<(Yaml, Yaml)>, name: Seq<char>) -> Seq<Yaml> {
    match map_get(data, name) {
        Some(Yaml::List(l)) => l@,
        _ => Seq::empty(),
    }
}

/// `b` is the bucket built from `items`.
pub open spec fn bucket_fits(b: Seq<(String, String)>, items: Seq<Yaml>) -> bool {
    &&& keys_sorted(b)
    &&& forall|s: Seq<char>| #[trigger] text_of(b, s) == first_term(items, s)
}

/// Slugify `text` and file it under that slug, unless the slug is empty or
/// already present (so a frontmatter term's display text survives a later
/// slug-colliding inline hashtag).
pub fn insert_term(bucket: &mut Bucket, text: &str)
    requires
        keys_sorted(old(bucket)@),
    ensures
        keys_sorted(final(bucket)@),
        forall|s: Seq<char>| #[trigger] text_of(final(bucket)@, s) == if s == slugify_spec(text@) && s.len() > 0
            && text_of(old(bucket)@, s) is None {
            Some(text@)
        } else {
            text_of(old(bucket)@, s)
        },
{
    let slug = slugify(text);
    if slug.as_str().unicode_len() == 0 {
        return;
    }
    let ghost k = slug@;
    let val = String::from_str(text);
    let ghost gv = val;
    insert_absent(bucket, slug, val);
    proof {
        assert forall|s: Seq<char>| #[trigger] text_of(bucket@, s) == if s == slugify_spec(text@) && s.len() > 0
            && text_of(old(bucket)@, s) is None {
            Some(text@)
        } else {
            text_of(old(bucket)@, s)
        } by {
            assert(lookup(bucket@, s) == if s == k && !has_key(old(bucket)@, k) {
                Some(gv)
            } else {
                lookup(old(bucket)@, s)
            });
        }
    }
}

/// The bucket of a frontmatter term list: every string item, slugified,
/// first write wins; non-strings are ignored.
pub fn bucket_of(items: &Vec<Yaml>) -> (r: Bucket)
    ensures
        bucket_fits(r@, items@),
{
    let mut b: Bucket = Vec::new();
    let mut i: usize = 0;
    proof {
        assert forall|s: Seq<char>| #[trigger] text_of(b@, s) == first_term(items@.take(0), s) by {
            assert(!has_key(b@, s));
        }
    }
    while i < items.len()
        invariant
            i <= items.len(),
            bucket_fits(b@, items@.take(i as int)),
        decreases items.len() - i,
    {
        let ghost before = b@;
        proof {
            assert(items@.take(i + 1).drop_last() == items@.take(i as int));
            assert(items@.take(i + 1).last() == items@[i as int]);
        }
        match as_str(&items[i]) {
            Some(t) => {
                insert_term(&mut b, t);
            },
            None => {},
        }
        proof {
            assert forall|s: Seq<char>| #[trigger] text_of(b@, s) == first_term(items@.take(i + 1), s) by {
                assert(text_of(before, s) == first_term(items@.take(i as int), s));
            }
        }
        i += 1;
    }
    proof { assert(items@.take(items.len() as int) == items@); }
    b
}

/// Some taxonomy in `names` is `k`.
pub open spec fn names_k(names: Seq<String>, k: Seq<char>) -> bool {
    exists|i: int| 0 <= i < names.len() && (#[trigger] names[i])@ == k
}

/// The doc's terms: one bucket per configured taxonomy (even when empty),
/// read from that taxonomy's frontmatter field as a string sequence.
pub open spec fn terms_fit(t: Seq<(String, Bucket)>, data: Seq<(Yaml, Yaml)>, names: Seq<String>) -> bool {
    &&& keys_sorted(t)
    &&& forall|k: Seq<char>| #[trigger] has_key(t, k) <==> names_k(names, k)
    &&& forall|k: Seq<char>|
        #[trigger] has_key(t, k) ==> (lookup(t, k) matches Some(b) && bucket_fits(b@, term_list(data, k)))
}

/// Build the per-doc `terms`: one bucket per taxonomy, from its field.
pub fn uplift_terms(data: &Mapping, taxonomies: &Vec<String>) -> (r: Terms)
    ensures
        terms_fit(r@, data@, taxonomies@),
{
    let mut terms: Terms = Vec::new();
    let mut i: usize = 0;
    while i < taxonomies.len()
        invariant
            i <= taxonomies.len(),
            terms_fit(terms@, data@, taxonomies@.take(i as int)),
        decreases taxonomies.len() - i,
    {
        let name = &taxonomies[i];
        let ghost before = terms@;
        let ghost names = taxonomies@.take(i + 1);
        proof {
            assert forall|k: Seq<char>| names_k(names, k) <==> (names_k(taxonomies@.take(i as int), k) || k == name@) by {
                if names_k(names, k) {
                    let j = choose|j: int| 0 <= j < names.len() && (#[trigger] names[j])@ == k;
                    if j < i {
                        assert(taxonomies@.take(i as int)[j] == names[j]);
                    }
                }
                if names_k(taxonomies@.take(i as int), k) {
                    let j = choose|j: int| 0 <= j < i && (#[trigger] taxonomies@.take(i as int)[j])@ == k;
                    assert(names[j] == taxonomies@.take(i as int)[j]);
                }
                if k == name@ {
                    assert(names[i as int] == *name);
                }
            }
        }
        let (found, _) = find_slot(&terms, name.as_str());
        if !found {
            let items: Vec<Yaml> = Vec::new();
            let b = match get(data, name.as_str()) {
                Some(Yaml::List(l)) => bucket_of(l),
                _ => {
                    proof {
                        assert(term_list(data@, name@) == Seq::<Yaml>::empty());
                        assert(items@ == Seq::<Yaml>::empty());
                    }
                    bucket_of(&items)
                },
            };
            let ghost gb = b;
            insert_absent(&mut terms, name.clone(), b);
            proof {
                assert forall|k: Seq<char>| #[trigger] has_key(terms@, k) <==> names_k(names, k) by {
                    if has_key(terms@, k) {
                        if k != name@ {
                            assert(lookup(terms@, k) == lookup(before, k));
                        }
                    }
                    if names_k(names, k) && k != name@ {
                        assert(lookup(terms@, k) == lookup(before, k));
                    }
                    if k == name@ {
                        assert(lookup(terms@, k) == Some(gb));
                    }
                }
                assert forall|k: Seq<char>| #[trigger] has_key(terms@, k) implies (lookup(terms@, k) matches Some(b)
                    && bucket_fits(b@, term_list(data@, k))) by {
                    if k != name@ {
                        assert(lookup(terms@, k) == lookup(before, k));
                    }
                }
            }
        } else {
            proof {
                assert forall|k: Seq<char>| #[trigger] has_key(terms@, k) <==> names_k(names, k) by {}
            }
        }
        i += 1;
    }
    proof { assert(taxonomies@.take(taxonomies.len() as int) == taxonomies@); }
    terms
}

// ---------------------------------------------------------------------------
// Doc
// ---------------------------------------------------------------------------

/// A source document: its paths, the fields uplifted from its frontmatter,
/// its body, and the links the markup phase found.
pub struct Doc {
    pub id_path: String,
    pub output_path: String,
    pub template: Option<String>,
    pub title: String,
    pub summary: String,
    pub content: String,
    pub terms: Terms,
    pub date: Date,
    pub updated: Date,
    pub data: Mapping,
    pub links: Vec<String>,
}

/// The Unix epoch.
pub open spec fn epoch() -> Date {
    Date { secs: 0, nanos: 0, year: 1970, month: 1, day: 1 }
}

/// `data.get(key)` read as a date.
pub open spec fn date_field(data: Seq<(Yaml, Yaml)>, key: Seq<char>) -> Option<Date> {
    match str_field(data, key) {
        Some(s) => parse_date_spec(s),
        None => None,
    }
}

/// Where a doc is written: its `permalink` expanded against its date, or its
/// id path with an `.html` extension.
pub open spec fn output_path_spec(id_path: Seq<char>, data: Seq<(Yaml, Yaml)>, date: Date) -> Seq<char> {
    match str_field(data, "permalink"@) {
        Some(p) => expand_spec(p, id_path, date, None),
        None => with_extension(id_path, "html"@),
    }
}

/// `Some(s)` as text, else the empty text.
pub open spec fn or_empty(o: Option<Seq<char>>) -> Seq<char> {
    match o {
        Some(s) => s,
        None => Seq::empty(),
    }
}

/// `n` is `d` with its metadata derived from its frontmatter: `title`,
/// `summary`, `template`, `terms`, `output_path`; `date`/`updated` taken from
/// the frontmatter when it holds a parseable value, else kept.
pub open spec fn uplift_fits(n: Doc, d: Doc, taxonomies: Seq<String>) -> bool {
    &&& n.id_path == d.id_path
    &&& n.content == d.content
    &&& n.links == d.links
    &&& n.title@ == or_empty(str_field(d.data@, "title"@))
    &&& n.summary@ == or_empty(str_field(d.data@, "summary"@))
    &&& match n.template {
        Some(t) => str_field(d.data@, "template"@) == Some(t@),
        None => str_field(d.data@, "template"@) is None,
    }
    &&& terms_fit(n.terms@, d.data@, taxonomies)
    &&& n.date == match date_field(d.data@, "date"@) {
        Some(x) => x,
        None => d.date,
    }
    &&& n.updated == match date_field(d.data@, "updated"@) {
        Some(x) => x,
        None => d.updated,
    }
    &&& n.output_path@ == output_path_spec(d.id_path@, d.data@, n.date)
}

/// `d` with its frontmatter replaced by `data`.
pub open spec fn with_data(d: Doc, data: Mapping) -> Doc {
    Doc {
        id_path: d.id_path,
        output_path: d.output_path,
        template: d.template,
        title: d.title,
        summary: d.summary,
        content: d.content,
        terms: d.terms,
        date: d.date,
        updated: d.updated,
        data: data,
        links: d.links,
    }
}

/// Read `data[key]` as an owned string.
pub fn uplift_string(data: &Mapping, key: &str) -> (r: Option<String>)
    ensures
        match r {
            Some(s) => str_field(data@, key@) == Some(s@),
            None => str_field(data@, key@) is None,
        },
{
    match get(data, key) {
        Some(v) => match as_str(v) {
            Some(s) => Some(String::from_str(s)),
            None => None,
        },
        None => None,
    }
}

/// `data[key]` parsed as a date (RFC 3339, then `YYYY-MM-DD`).
pub fn parse_date(data: &Mapping, key: &str) -> (r: Option<Date>)
    ensures
        r == date_field(data@, key@),
{
    match get(data, key) {
        Some(v) => match as_str(v) {
            Some(s) => parse_date_str(s),
            None => None,
        },
        None => None,
    }
}

/// The output path of a doc at `id_path` with frontmatter `data` and date
/// `date`.
pub fn resolve_output_path(id_path: &str, data: &Mapping, date: &Date) -> (r: String)
    ensures
        r@ == output_path_spec(id_path@, data@, *date),
{
    match uplift_string(data, "permalink") {
        Some(p) => expand(p.as_str(), id_path, date, None),
        None => default_for(id_path),
    }
}

/// `k` is a key of the mapping (as YAML values).
pub open spec fn has_ykey(m: Seq<(YamlV, YamlV)>, k: YamlV) -> bool {
    exists|i: int| 0 <= i < m.len() && (#[trigger] m[i]).0 == k
}

/// `data` with each entry of `defs` whose key it lacks appended, in order.
pub open spec fn merge_defaults(data: Seq<(YamlV, YamlV)>, defs: Seq<(YamlV, YamlV)>) -> Seq<(YamlV, YamlV)>
    decreases defs.len(),
{
    if defs.len() == 0 {
        data
    } else {
        let acc = merge_defaults(data, defs.drop_last());
        if has_ykey(acc, defs.last().0) {
            acc
        } else {
            acc.push(defs.last())
        }
    }
}

/// Is `k` a key of `m`?
pub fn contains_ykey(m: &Mapping, k: &Yaml) -> (r: bool)
    ensures
        r == has_ykey(yvm(m@), yv(*k)),
{
    proof { lemma_yvm(m@); }
    let mut i: usize = 0;
    while i < m.len()
        invariant
            i <= m.len(),
            yvm(m@).len() == m@.len(),
            forall|j: int| 0 <= j < m@.len() ==> #[trigger] yvm(m@)[j] == (yv(m@[j].0), yv(m@[j].1)),
            forall|j: int| 0 <= j < i ==> yv((#[trigger] m@[j]).0) != yv(*k),
        decreases m.len() - i,
    {
        if yaml_eq(&m[i].0, k) {
            proof { assert(yvm(m@)[i as int].0 == yv(*k)); }
            return true;
        }
        i += 1;
    }
    proof {
        if has_ykey(yvm(m@), yv(*k)) {
            let j = choose|j: int| 0 <= j < yvm(m@).len() && (#[trigger] yvm(m@)[j]).0 == yv(*k);
            assert(yv(m@[j].0) == yv(*k));
        }
    }
    false
}

impl Doc {
    /// A doc assembled from already-split inputs: the raw frontmatter in
    /// `data`, the unrendered body in `content`. Derived fields keep their
    /// defaults until [`Doc::uplift_frontmatter`] runs; `output_path` starts
    /// as the path-mirroring default.
    pub fn new(id_path: String, content: String, data: Mapping) -> (r: Doc)
        ensures
            r.id_path == id_path,
            r.content == content,
            r.data == data,
            r.output_path@ == with_extension(id_path@, "html"@),
            r.template is None,
            r.title@.len() == 0,
            r.summary@.len() == 0,
            r.terms@.len() == 0,
            r.date == epoch(),
            r.updated == epoch(),
            r.links@.len() == 0,
    {
        let output_path = default_for(id_path.as_str());
        Doc {
            id_path,
            output_path,
            template: None,
            title: String::new(),
            summary: String::new(),
            content,
            terms: Vec::new(),
            date: Date::epoch(),
            updated: Date::epoch(),
            data,
            links: Vec::new(),
        }
    }

    /// The kind of this doc, from its `id_path`'s extension.
    pub fn kind(&self) -> (r: DocKind)
        ensures
            r == kind_of(self.id_path@),
    {
        DocKind::from_path(self.id_path.as_str())
    }

    /// Derive the metadata fields from `data`: `title`, `summary`, `template`,
    /// `terms` (one bucket per taxonomy), and `output_path` (expanding any
    /// `permalink`). `date`/`updated` change only when frontmatter supplies a
    /// parseable value, so a pre-seeded value survives otherwise.
    pub fn uplift_frontmatter(&mut self, taxonomies: &Vec<String>)
        ensures
            final(self).data == old(self).data,
            uplift_fits(*final(self), *old(self), taxonomies@),
    {
        self.title = match uplift_string(&self.data, "title") {
            Some(t) => t,
            None => String::new(),
        };
        self.summary = match uplift_string(&self.data, "summary") {
            Some(t) => t,
            None => String::new(),
        };
        self.template = uplift_string(&self.data, "template");
        self.terms = uplift_terms(&self.data, taxonomies);
        match parse_date(&self.data, "date") {
            Some(d) => { self.date = d; },
            None => {},
        }
        match parse_date(&self.data, "updated") {
            Some(d) => { self.updated = d; },
            None => {},
        }
        self.output_path = resolve_output_path(self.id_path.as_str(), &self.data, &self.date);
    }

    /// Merge per-collection defaults into this doc's frontmatter, filling only
    /// keys the doc did not set itself (its own frontmatter always wins).
    /// Only `data` changes; uplift again to re-derive the fields.
    pub fn apply_defaults(&mut self, defaults: &Mapping)
        ensures
            yvm(final(self).data@) == merge_defaults(yvm(old(self).data@), yvm(defaults@)),
            final(self).id_path == old(self).id_path,
            final(self).output_path == old(self).output_path,
            final(self).template == old(self).template,
            final(self).title == old(self).title,
            final(self).summary == old(self).summary,
            final(self).content == old(self).content,
            final(self).terms == old(self).terms,
            final(self).date == old(self).date,
            final(self).updated == old(self).updated,
            final(self).links == old(self).links,
    {
        let ghost d0 = yvm(self.data@);
        let ghost dv = yvm(defaults@);
        proof {
            lemma_yvm(defaults@);
            assert(dv.take(0) =~= Seq::<(YamlV, YamlV)>::empty());
        }
        let mut i: usize = 0;
        while i < defaults.len()
            invariant
                i <= defaults.len(),
                dv == yvm(defaults@),
                dv.len() == defaults@.len(),
                forall|j: int| 0 <= j < defaults@.len() ==> #[trigger] dv[j] == (yv(defaults@[j].0), yv(defaults@[j].1)),
                yvm(self.data@) == merge_defaults(d0, dv.take(i as int)),
                self.id_path == old(self).id_path,
                self.output_path == old(self).output_path,
                self.template == old(self).template,
                self.title == old(self).title,
                self.summary == old(self).summary,
                self.content == old(self).content,
                self.terms == old(self).terms,
                self.date == old(self).date,
                self.updated == old(self).updated,
                self.links == old(self).links,
            decreases defaults.len() - i,
        {
            proof {
                assert(dv.take(i + 1).drop_last() == dv.take(i as int));
                assert(dv.take(i + 1).last() == dv[i as int]);
            }
            if !contains_ykey(&self.data, &defaults[i].0) {
                let ghost before = self.data@;
                let k = yaml_clone(&defaults[i].0);
                let v = yaml_clone(&defaults[i].1);
                self.data.push((k, v));
                proof {
                    lemma_yvm(before);
                    lemma_yvm(self.data@);
                    assert(yvm(self.data@) =~= yvm(before).push(dv[i as int]));
                }
            }
            i += 1;
        }
        proof { assert(dv.take(defaults.len() as int) == dv); }
    }
}

/// The body of a `.yaml` doc: its `content` field when that is a string,
/// else empty.
pub fn yaml_body(data: &Mapping) -> (r: String)
    ensures
        r@ == or_empty(str_field(data@, "content"@)),
{
    match uplift_string(data, "content") {
        Some(s) => s,
        None => String::new(),
    }
}

// ---------------------------------------------------------------------------
// DocMeta
// ---------------------------------------------------------------------------

/// Read-only projection of a doc used as the frozen view during markup: no
/// body, links, raw frontmatter or template.
pub struct DocMeta {
    pub id_path: String,
    pub output_path: String,
    pub title: String,
    pub summary: String,
    pub terms: Terms,
    pub date: Date,
    pub updated: Date,
}

/// Buckets with the same entries.
pub open spec fn bucket_same(a: Seq<(String, String)>, b: Seq<(String, String)>) -> bool {
    a.len() == b.len() && forall|i: int| 0 <= i < a.len() ==> (#[trigger] a[i]).0@ == b[i].0@ && a[i].1@ == b[i].1@
}

/// Terms with the same entries.
pub open spec fn terms_same(a: Seq<(String, Bucket)>, b: Seq<(String, Bucket)>) -> bool {
    a.len() == b.len() && forall|i: int| 0 <= i < a.len() ==> (#[trigger] a[i]).0@ == b[i].0@ && bucket_same(a[i].1@, b[i].1@)
}

/// A copy of a bucket.
pub fn clone_bucket(b: &Bucket) -> (r: Bucket)
    ensures
        bucket_same(r@, b@),
{
    let mut out: Bucket = Vec::new();
    let mut i: usize = 0;
    while i < b.len()
        invariant
            i <= b@.len(),
            out@.len() == i,
            forall|k: int| 0 <= k < i ==> (#[trigger] out@[k]).0@ == b@[k].0@ && out@[k].1@ == b@[k].1@,
        decreases b.len() - i,
    {
        out.push((b[i].0.clone(), b[i].1.clone()));
        i += 1;
    }
    out
}

/// A copy of a doc's terms.
pub fn clone_terms(t: &Terms) -> (r: Terms)
    ensures
        terms_same(r@, t@),
{
    let mut out: Terms = Vec::new();
    let mut i: usize = 0;
    while i < t.len()
        invariant
            i <= t@.len(),
            out@.len() == i,
            forall|k: int| 0 <= k < i ==> (#[trigger] out@[k]).0@ == t@[k].0@ && bucket_same(out@[k].1@, t@[k].1@),
        decreases t.len() - i,
    {
        out.push((t[i].0.clone(), clone_bucket(&t[i].1)));
        i += 1;
    }
    out
}

impl DocMeta {
    /// The projection of `doc`.
    pub fn from_doc(doc: &Doc) -> (r: DocMeta)
        ensures
            r.id_path@ == doc.id_path@,
            r.output_path@ == doc.output_path@,
            r.title@ == doc.title@,
            r.summary@ == doc.summary@,
            terms_same(r.terms@, doc.terms@),
            r.date == doc.date,
            r.updated == doc.updated,
    {
        DocMeta {
            id_path: doc.id_path.clone(),
            output_path: doc.output_path.clone(),
            title: doc.title.clone(),
            summary: doc.summary.clone(),
            terms: clone_terms(&doc.terms),
            date: doc.date,
            updated: doc.updated,
        }
    }
}

impl DocMeta {
    /// A copy of this projection.
    pub fn clone_meta(&self) -> (r: DocMeta)
        ensures
            r.id_path@ == self.id_path@,
            r.output_path@ == self.output_path@,
            r.title@ == self.title@,
            r.summary@ == self.summary@,
            terms_same(r.terms@, self.terms@),
            r.date == self.date,
            r.updated == self.updated,
    {
        DocMeta {
            id_path: self.id_path.clone(),
            output_path: self.output_path.clone(),
            title: self.title.clone(),
            summary: self.summary.clone(),
            terms: clone_terms(&self.terms),
            date: self.date,
            updated: self.updated,
        }
    }
}

// ---------------------------------------------------------------------------
// Inline hashtags
// ---------------------------------------------------------------------------

/// Display text of the first of `tags` whose (non-empty) slug is `s`.
pub open spec fn first_tag(tags: Seq<String>, s: Seq<char>) -> Option<Seq<char>>
    decreases tags.len(),
{
    if tags.len() == 0 {
        None
    } else {
        match first_tag(tags.drop_last(), s) {
            Some(t) => Some(t),
            None => if s.len() > 0 && slugify_spec(tags.last()@) == s {
                Some(tags.last()@)
            } else {
                None
            },
        }
    }
}

/// The `tags` bucket of a doc's terms (empty when absent).
pub open spec fn tags_bucket(t: Seq<(String, Bucket)>) -> Seq<(String, String)> {
    match lookup(t, "tags"@) {
        Some(b) => b@,
        None => Seq::empty(),
    }
}

/// Terms whose map is sorted and whose buckets are sorted.
pub open spec fn terms_sorted(t: Seq<(String, Bucket)>) -> bool {
    keys_sorted(t) && forall|j: int| 0 <= j < t.len() ==> keys_sorted((#[trigger] t[j]).1@)
}

impl Doc {
    /// File inline hashtags under the `tags` bucket (creating it if needed):
    /// each tag slugified, first write wins, so frontmatter terms keep their
    /// display text.
    pub fn add_hashtags(&mut self, tags: &Vec<String>)
        requires
            terms_sorted(old(self).terms@),
        ensures
            terms_sorted(final(self).terms@),
            forall|k: Seq<char>| k != "tags"@ ==> #[trigger] lookup(final(self).terms@, k) == lookup(old(self).terms@, k),
            has_key(final(self).terms@, "tags"@),
            forall|s: Seq<char>| #[trigger] text_of(tags_bucket(final(self).terms@), s) == match text_of(tags_bucket(old(self).terms@), s) {
                Some(t) => Some(t),
                None => first_tag(tags@, s),
            },
            final(self).id_path == old(self).id_path,
            final(self).data == old(self).data,
            final(self).content == old(self).content,
            final(self).date == old(self).date,
            final(self).updated == old(self).updated,
            final(self).output_path == old(self).output_path,
            final(self).links == old(self).links,
            final(self).title == old(self).title,
            final(self).summary == old(self).summary,
            final(self).template == old(self).template,
    {
        proof { reveal_strlit("tags"); }
        let ghost t0 = self.terms@;
        let (found, p) = find_slot(&self.terms, "tags");
        let mut bucket: Bucket = if found {
            let (_, b) = self.terms.remove(p);
            proof {
                crate::sorted::lemma_lookup_at(t0, p as int);
                assert(b@ == tags_bucket(t0));
            }
            b
        } else {
            proof { assert(tags_bucket(t0) =~= Seq::<(String, String)>::empty()); }
            Vec::new()
        };
        let ghost b0 = bucket@;
        proof {
            if found {
                assert(keys_sorted(t0[p as int].1@));
            }
            assert forall|s: Seq<char>| #[trigger] text_of(bucket@, s) == match text_of(b0, s) {
                Some(t) => Some(t),
                None => first_tag(tags@.take(0), s),
            } by {}
        }
        let mut i: usize = 0;
        while i < tags.len()
            invariant
                i <= tags@.len(),
                keys_sorted(bucket@),
                forall|s: Seq<char>| #[trigger] text_of(bucket@, s) == match text_of(b0, s) {
                    Some(t) => Some(t),
                    None => first_tag(tags@.take(i as int), s),
                },
            decreases tags.len() - i,
        {
            let ghost before = bucket@;
            proof {
                assert(tags@.take(i + 1).drop_last() =~= tags@.take(i as int));
                assert(tags@.take(i + 1).last() == tags@[i as int]);
            }
            insert_term(&mut bucket, tags[i].as_str());
            i += 1;
        }
        proof { assert(tags@.take(tags@.len() as int) =~= tags@); }
        let ghost gb = bucket;
        if found {
            let ghost mid = self.terms@;
            self.terms.insert(p, (String::from_str("tags"), bucket));
            proof {
                let t1 = self.terms@;
                assert(t1 =~= t0.update(p as int, t1[p as int]));
                assert(t1[p as int].0@ == t0[p as int].0@);
                assert forall|a: int, b: int| 0 <= a < b < t1.len() implies crate::text::path_lt(#[trigger] t1[a].0@, #[trigger] t1[b].0@) by {
                    assert(t1[a].0@ == t0[a].0@ && t1[b].0@ == t0[b].0@);
                }
                assert forall|j: int| 0 <= j < t1.len() implies keys_sorted((#[trigger] t1[j]).1@) by {
                    if j != p {
                        assert(t1[j] == t0[j]);
                    }
                }
                assert forall|k: Seq<char>| k != "tags"@ implies #[trigger] lookup(t1, k) == lookup(t0, k) by {
                    if has_key(t0, k) {
                        let w = choose|w: int| 0 <= w < t0.len() && (#[trigger] t0[w]).0@ == k;
                        crate::sorted::lemma_lookup_at(t0, w);
                        assert(w != p);
                        assert(t1[w] == t0[w]);
                        crate::sorted::lemma_lookup_at(t1, w);
                    }
                    if has_key(t1, k) {
                        let w = choose|w: int| 0 <= w < t1.len() && (#[trigger] t1[w]).0@ == k;
                        assert(w != p);
                        assert(t0[w] == t1[w]);
                    }
                }
                crate::sorted::lemma_lookup_at(t1, p as int);
                assert(has_key(t1, "tags"@));
                assert(tags_bucket(t1) == gb@);
            }
        } else {
            insert_absent(&mut self.terms, String::from_str("tags"), bucket);
            proof {
                let t1 = self.terms@;
                assert(lookup(t1, "tags"@) == Some(gb));
                assert(has_key(t1, "tags"@));
                assert forall|j: int| 0 <= j < t1.len() implies keys_sorted((#[trigger] t1[j]).1@) by {
                    crate::sorted::lemma_lookup_at(t1, j);
                    if t1[j].0@ != "tags"@ {
                        crate::sorted::lemma_lookup_some(t0, t1[j].0@);
                    }
                }
            }
        }
    }
}

impl Default for Doc {
    /// An empty doc at the empty path, dated at the Unix epoch.
    fn default() -> (r: Doc)
        ensures
            r.id_path@.len() == 0,
            r.output_path@.len() == 0,
            r.template is None,
            r.title@.len() == 0,
            r.summary@.len() == 0,
            r.content@.len() == 0,
            r.terms@.len() == 0,
            r.date == epoch(),
            r.updated == epoch(),
            r.data@.len() == 0,
            r.links@.len() == 0,
    {
        Doc {
            id_path: String::new(),
            output_path: String::new(),
            template: None,
            title: String::new(),
            summary: String::new(),
            content: String::new(),
            terms: Vec::new(),
            date: Date::epoch(),
            updated: Date::epoch(),
            data: Vec::new(),
            links: Vec::new(),
        }
    }
}

// ---------------------------------------------------------------------------
// Sources
// ---------------------------------------------------------------------------

/// The content files a site reads: `.md`, `.html` and `.yaml`.
pub open spec fn is_content_path_spec(path: Seq<char>) -> bool {
    extension(path) == Some("md"@) || extension(path) == Some("html"@) || extension(path) == Some("yaml"@)
}

/// Is the file at `path` a content file?
pub fn is_content_path(path: &str) -> (r: bool)
    ensures
        r == is_content_path_spec(path@),
{
    let cs = chars_of(path);
    has_extension(&cs, "md") || has_extension(&cs, "html") || has_extension(&cs, "yaml")
}

/// A doc is a draft when its frontmatter sets `draft: true`.
pub open spec fn is_draft_spec(data: Seq<(Yaml, Yaml)>) -> bool {
    map_get(data, "draft"@) == Some(Yaml::Bool(true))
}

/// Is the doc with frontmatter `data` a draft?
pub fn is_draft(data: &Mapping) -> (r: bool)
    ensures
        r == is_draft_spec(data@),
{
    match get(data, "draft") {
        Some(Yaml::Bool(b)) => *b,
        _ => false,
    }
}

// ---------------------------------------------------------------------------
// Summaries
// ---------------------------------------------------------------------------

/// Longest fallback summary, in characters.
pub const SUMMARY_MAX_CHARS: usize = 250;

/// A doc's summary once its body is rendered to `html`: a non-empty
/// frontmatter `summary` verbatim; otherwise the summary it already has when
/// that is non-empty or the doc is not Markdown; otherwise the rendered text
/// with tags stripped, cut to at most 250 characters at a word boundary.
pub open spec fn summary_spec(kind: DocKind, data: Seq<(Yaml, Yaml)>, summary: Seq<char>, html: Seq<char>) -> Seq<char> {
    let given = match str_field(data, "summary"@) {
        Some(s) => s,
        None => Seq::empty(),
    };
    if given.len() > 0 {
        given
    } else if summary.len() > 0 || kind != DocKind::Markdown {
        summary
    } else {
        crate::html::truncate_words_spec(crate::html::strip_tags_spec(html), SUMMARY_MAX_CHARS as nat)
    }
}

/// The summary of a doc of `kind` with frontmatter `data` and current
/// `summary`, after its body rendered to `html`.
pub fn summary_after_render(kind: DocKind, data: &Mapping, summary: &str, html: &str) -> (r: String)
    ensures
        r@ == summary_spec(kind, data@, summary@, html@),
        kind == DocKind::Markdown && summary@.len() == 0 && (str_field(data@, "summary"@) matches Some(s) ==> s.len()
            == 0) ==> r@ == crate::html::truncate_words_spec(crate::html::strip_tags_spec(html@), SUMMARY_MAX_CHARS as nat),
{
    if let Some(s) = uplift_string(data, "summary") {
        if s.unicode_len() > 0 {
            return s;
        }
    }
    if summary.unicode_len() > 0 || kind != DocKind::Markdown {
        String::from_str(summary)
    } else {
        crate::html::truncate_words(crate::html::strip_tags(html).as_str(), SUMMARY_MAX_CHARS)
    }
}

} // verus!
