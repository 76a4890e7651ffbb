//! URL composition for templates: a doc's link (root-relative, under the
//! base path) and permalink (absolute when the site URL is set), and the
//! same two forms for arbitrary site paths.

use vstd::prelude::*;
use crate::doc::DocMeta;
use crate::permalink::{to_url, to_url_spec};
use crate::text::{chars_of, push_range, str_eq, trim_start_char, trim_start_char_idx};

verus! {

/// `Some(u)` as text, else the empty text.
pub open spec fn origin(site_url: Option<Seq<char>>) -> Seq<char> {
    match site_url {
        Some(u) => u,
        None => Seq::empty(),
    }
}

/// `Option<&str>` by its view.
pub open spec fn opt_view(o: Option<&str>) -> Option<Seq<char>> {
    match o {
        Some(u) => Some(u@),
        None => None,
    }
}

/// The root-relative URL of a doc written at `output_path`, under the base
/// path (the `link` filter).
pub fn link_url(base_path: &str, output_path: &str) -> (r: String)
    ensures
        r@ == base_path@ + to_url_spec(output_path@),
{
    let mut out = String::from_str(base_path);
    out.append(to_url(output_path).as_str());
    out
}

/// The canonical URL of a doc written at `output_path`: the site URL (when
/// set), the base path, then its URL (the `permalink` filter).
pub fn permalink_url(site_url: Option<&str>, base_path: &str, output_path: &str) -> (r: String)
    ensures
        r@ == origin(opt_view(site_url)) + base_path@ + to_url_spec(output_path@),
{
    let mut out = match site_url {
        Some(u) => String::from_str(u),
        None => String::new(),
    };
    out.append(base_path);
    out.append(to_url(output_path).as_str());
    out
}

/// A site path under the base path: `css/site.css` and `/css/site.css` both
/// become `<base>/css/site.css` (the `relative_url` filter).
pub fn relative_url(base_path: &str, path: &str) -> (r: String)
    ensures
        r@ == base_path@ + seq!['/'] + trim_start_char(path@, '/'),
{
    let cs = chars_of(path);
    let k = trim_start_char_idx(&cs, '/', 0);
    proof { assert(cs@.skip(0) =~= cs@); }
    let mut out = String::from_str(base_path);
    crate::text::push_char(&mut out, '/');
    push_range(&mut out, &cs, k, cs.len());
    proof { assert(cs@.subrange(k as int, cs@.len() as int) =~= cs@.skip(k as int)); }
    out
}

/// A site path as an absolute URL: the site URL (when set) before its
/// relative form (the `absolute_url` filter).
pub fn absolute_url(site_url: Option<&str>, base_path: &str, path: &str) -> (r: String)
    ensures
        r@ == origin(opt_view(site_url)) + base_path@ + seq!['/'] + trim_start_char(path@, '/'),
{
    let mut out = match site_url {
        Some(u) => String::from_str(u),
        None => String::new(),
    };
    out.append(relative_url(base_path, path).as_str());
    out
}

/// The output path of the first doc at `id_path` in a snapshot.
pub open spec fn meta_output(metas: Seq<DocMeta>, id: Seq<char>) -> Option<Seq<char>>
    decreases metas.len(),
{
    if metas.len() == 0 {
        None
    } else if metas[0].id_path@ == id {
        Some(metas[0].output_path@)
    } else {
        meta_output(metas.drop_first(), id)
    }
}

/// Look up a doc's output path by `id_path` in a snapshot.
pub fn output_of<'a>(metas: &'a Vec<DocMeta>, id_path: &str) -> (r: Option<&'a String>)
    ensures
        match r {
            Some(p) => meta_output(metas@, id_path@) == Some(p@),
            None => meta_output(metas@, id_path@) is None,
        },
{
    let mut i: usize = 0;
    proof { assert(metas@.skip(0) =~= metas@); }
    while i < metas.len()
        invariant
            i <= metas@.len(),
            meta_output(metas@, id_path@) == meta_output(metas@.skip(i as int), id_path@),
        decreases metas.len() - i,
    {
        proof { assert(metas@.skip(i as int).drop_first() =~= metas@.skip(i + 1)); }
        if str_eq(metas[i].id_path.as_str(), id_path) {
            return Some(&metas[i].output_path);
        }
        i += 1;
    }
    None
}

} // verus!
