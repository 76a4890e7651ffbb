//! Alias redirect stubs: for every alias of a doc, a tiny HTML page at the
//! old URL that redirects to the doc's canonical URL. Stubs are written after
//! every real page and never replace one.

use vstd::prelude::*;
use crate::doc::Doc;
use crate::output::Output;
use crate::permalink::{alias_output_path, alias_output_path_spec, to_url, to_url_spec};
use crate::text::{chars_of, push_char};
use crate::yaml::{as_str, get, map_get, str_of, Yaml};

verus! {

broadcast use vstd::std_specs::vec::group_vec_axioms;

/// One character escaped for HTML text or a quoted attribute.
pub open spec fn html_char(c: char) -> Seq<char> {
    if c == '&' {
        "&amp;"@
    } else if c == '<' {
        "&lt;"@
    } else if c == '>' {
        "&gt;"@
    } else if c == '"' {
        "&quot;"@
    } else if c == '\'' {
        "&#x27;"@
    } else {
        seq![c]
    }
}

/// A string escaped for HTML, character by character.
pub open spec fn escape_html_spec(s: Seq<char>) -> Seq<char>
    decreases s.len(),
{
    if s.len() == 0 {
        Seq::empty()
    } else {
        escape_html_spec(s.drop_last()) + html_char(s.last())
    }
}

/// Escape a string for use in HTML text or a double/single-quoted attribute.
pub fn escape_html(s: &str) -> (r: String)
    ensures
        r@ == escape_html_spec(s@),
{
    let cs = chars_of(s);
    let mut out = String::new();
    let mut i: usize = 0;
    while i < cs.len()
        invariant
            i <= cs.len(),
            cs@ == s@,
            out@ == escape_html_spec(s@.take(i as int)),
        decreases cs.len() - i,
    {
        let c = cs[i];
        proof {
            assert(s@.take(i + 1).drop_last() == s@.take(i as int));
            reveal_strlit("&amp;");
            reveal_strlit("&lt;");
            reveal_strlit("&gt;");
            reveal_strlit("&quot;");
            reveal_strlit("&#x27;");
        }
        if c == '&' {
            out.append("&amp;");
        } else if c == '<' {
            out.append("&lt;");
        } else if c == '>' {
            out.append("&gt;");
        } else if c == '"' {
            out.append("&quot;");
        } else if c == '\'' {
            out.append("&#x27;");
        } else {
            push_char(&mut out, c);
        }
        i += 1;
    }
    proof { assert(s@.take(cs.len() as int) == s@); }
    out
}

/// Lower-case hex digit of `d < 16`.
pub open spec fn hex_digit(d: int) -> char {
    if d < 10 {
        ((d + 48) as u32) as char
    } else {
        ((d - 10 + 97) as u32) as char
    }
}

/// One character inside a JSON string literal that is safe in `<script>`.
pub open spec fn json_char(c: char) -> Seq<char> {
    if c == '"' {
        seq!['\\', '"']
    } else if c == '\\' {
        seq!['\\', '\\']
    } else if c == '\n' {
        seq!['\\', 'n']
    } else if c == '\r' {
        seq!['\\', 'r']
    } else if c == '\t' {
        seq!['\\', 't']
    } else if c == '<' {
        seq!['\\', 'u', '0', '0', '3', 'c']
    } else if c == '>' {
        seq!['\\', 'u', '0', '0', '3', 'e']
    } else if c == '&' {
        seq!['\\', 'u', '0', '0', '2', '6']
    } else if (c as u32) < 0x20 {
        seq!['\\', 'u', '0', '0', hex_digit((c as u32) as int / 16), hex_digit((c as u32) as int % 16)]
    } else {
        seq![c]
    }
}

/// The JSON escaping of `s`, without the quotes.
pub open spec fn json_body(s: Seq<char>) -> Seq<char>
    decreases s.len(),
{
    if s.len() == 0 {
        Seq::empty()
    } else {
        json_body(s.drop_last()) + json_char(s.last())
    }
}

/// The hex digit for `d < 16`.
fn hex(d: u32) -> (r: char)
    requires
        d < 16,
    ensures
        r == hex_digit(d as int),
{
    if d < 10 {
        char_of(d + 48)
    } else {
        char_of(d - 10 + 97)
    }
}

/// The ASCII character with code `n`.
fn char_of(n: u32) -> (r: char)
    requires
        n < 128,
    ensures
        r == (n as char),
{
    let b: u8 = n as u8;
    b as char
}

/// Encode a string as a JSON string literal that is safe inside `<script>`
/// (`<`, `>`, `&` are `\u`-escaped so the text cannot close the element).
pub fn json_string(s: &str) -> (r: String)
    ensures
        r@ == seq!['"'] + json_body(s@) + seq!['"'],
{
    let cs = chars_of(s);
    let mut out = String::new();
    push_char(&mut out, '"');
    let mut i: usize = 0;
    while i < cs.len()
        invariant
            i <= cs.len(),
            cs@ == s@,
            out@ == seq!['"'] + json_body(s@.take(i as int)),
        decreases cs.len() - i,
    {
        let c = cs[i];
        proof { assert(s@.take(i + 1).drop_last() == s@.take(i as int)); }
        let ghost before = out@;
        if c == '"' {
            push_char(&mut out, '\\');
            push_char(&mut out, '"');
        } else if c == '\\' {
            push_char(&mut out, '\\');
            push_char(&mut out, '\\');
        } else if c == '\n' {
            push_char(&mut out, '\\');
            push_char(&mut out, 'n');
        } else if c == '\r' {
            push_char(&mut out, '\\');
            push_char(&mut out, 'r');
        } else if c == '\t' {
            push_char(&mut out, '\\');
            push_char(&mut out, 't');
        } else if c == '<' || c == '>' || c == '&' || (c as u32) < 0x20 {
            push_char(&mut out, '\\');
            push_char(&mut out, 'u');
            push_char(&mut out, '0');
            push_char(&mut out, '0');
            if c == '<' {
                push_char(&mut out, '3');
                push_char(&mut out, 'c');
            } else if c == '>' {
                push_char(&mut out, '3');
                push_char(&mut out, 'e');
            } else if c == '&' {
                push_char(&mut out, '2');
                push_char(&mut out, '6');
            } else {
                let n = c as u32;
                push_char(&mut out, hex(n / 16));
                push_char(&mut out, hex(n % 16));
            }
        } else {
            push_char(&mut out, c);
        }
        proof { assert(out@ =~= before + json_char(c)); }
        i += 1;
    }
    proof { assert(s@.take(cs.len() as int) == s@); }
    push_char(&mut out, '"');
    out
}

/// The built-in redirect page: a `rel=canonical` link, a `<meta refresh>`
/// for browsers without scripts, and a script that carries the URL fragment
/// over.
pub open spec fn stub_spec(title: Seq<char>, target: Seq<char>, target_absolute: Seq<char>) -> Seq<char> {
    let t = escape_html_spec(title);
    let a = escape_html_spec(target);
    let c = escape_html_spec(target_absolute);
    let j = seq!['"'] + json_body(target) + seq!['"'];
    "<!doctype html>\n<html lang=\"en\">\n<head>\n<meta charset=\"utf-8\">\n<title>"@ + t
        + "</title>\n<link rel=\"canonical\" href=\""@ + c
        + "\">\n<meta http-equiv=\"refresh\" content=\"0; url="@ + a
        + "\">\n</head>\n<body>\n<p>This page has moved to <a href=\""@ + a + "\">"@ + a
        + "</a>.</p>\n<script>location.replace("@ + j
        + " + location.hash);</script>\n</body>\n</html>\n"@
}

/// Render the redirect page for a doc titled `title` whose canonical URL is
/// `target` (root-relative) and `target_absolute`.
pub fn render_stub(title: &str, target: &str, target_absolute: &str) -> (r: String)
    ensures
        r@ == stub_spec(title@, target@, target_absolute@),
{
    let t = escape_html(title);
    let a = escape_html(target);
    let c = escape_html(target_absolute);
    let j = json_string(target);
    let mut out = String::from_str("<!doctype html>\n<html lang=\"en\">\n<head>\n<meta charset=\"utf-8\">\n<title>");
    out.append(t.as_str());
    out.append("</title>\n<link rel=\"canonical\" href=\"");
    out.append(c.as_str());
    out.append("\">\n<meta http-equiv=\"refresh\" content=\"0; url=");
    out.append(a.as_str());
    out.append("\">\n</head>\n<body>\n<p>This page has moved to <a href=\"");
    out.append(a.as_str());
    out.append("\">");
    out.append(a.as_str());
    out.append("</a>.</p>\n<script>location.replace(");
    out.append(j.as_str());
    out.append(" + location.hash);</script>\n</body>\n</html>\n");
    out
}

/// The root-relative canonical URL of a doc: base path, then its URL.
pub open spec fn canonical(base_path: Seq<char>, output_path: Seq<char>) -> Seq<char> {
    base_path + to_url_spec(output_path)
}

/// The absolute canonical URL: `site_url` prefixed when it is set.
pub open spec fn canonical_absolute(site_url: Option<Seq<char>>, base_path: Seq<char>, output_path: Seq<char>) -> Seq<char> {
    match site_url {
        Some(u) => u + base_path + to_url_spec(output_path),
        None => canonical(base_path, output_path),
    }
}

/// The redirect stub for one alias of `doc`, or `None` when the alias is
/// blank or escapes the output dir.
pub fn make_stub(base_path: &str, site_url: Option<&str>, doc: &Doc, alias: &str) -> (r: Option<Output>)
    ensures
        match alias_output_path_spec(alias@) {
            None => r is None,
            Some(p) => r matches Some(o) && o.output_path@ == p && o.id_path@ == doc.id_path@ && o.content@ == stub_spec(
                doc.title@,
                canonical(base_path@, doc.output_path@),
                canonical_absolute(
                    match site_url {
                        Some(u) => Some(u@),
                        None => None,
                    },
                    base_path@,
                    doc.output_path@,
                ),
            ),
        },
{
    let output_path = match alias_output_path(alias) {
        Some(p) => p,
        None => return None,
    };
    let url = to_url(doc.output_path.as_str());
    let mut target = String::from_str(base_path);
    target.append(url.as_str());
    let target_absolute = match site_url {
        Some(u) => {
            let mut t = String::from_str(u);
            t.append(base_path);
            t.append(url.as_str());
            t
        },
        None => target.clone(),
    };
    Some(Output {
        output_path,
        content: render_stub(doc.title.as_str(), target.as_str(), target_absolute.as_str()),
        id_path: doc.id_path.clone(),
    })
}

/// An output as plain values: `(output_path, content, id_path)`.
pub open spec fn out_view(o: Output) -> (Seq<char>, Seq<char>, Seq<char>) {
    (o.output_path@, o.content@, o.id_path@)
}

/// The string items of a list, in order.
pub open spec fn str_items(items: Seq<Yaml>) -> Seq<Seq<char>>
    decreases items.len(),
{
    if items.len() == 0 {
        Seq::empty()
    } else {
        let r = str_items(items.drop_last());
        match str_of(items.last()) {
            Some(t) => r.push(t),
            None => r,
        }
    }
}

/// A doc's aliases: the strings of its `aliases:` list.
pub open spec fn aliases_of(d: Doc) -> Seq<Seq<char>> {
    match map_get(d.data@, "aliases"@) {
        Some(Yaml::List(l)) => str_items(l@),
        _ => Seq::empty(),
    }
}

/// The stub for one alias, as plain values.
pub open spec fn stub_view(base: Seq<char>, site: Option<Seq<char>>, d: Doc, alias: Seq<char>) -> Option<(Seq<char>, Seq<char>, Seq<char>)> {
    match alias_output_path_spec(alias) {
        None => None,
        Some(p) => Some(
            (
                p,
                stub_spec(d.title@, canonical(base, d.output_path@), canonical_absolute(site, base, d.output_path@)),
                d.id_path@,
            ),
        ),
    }
}

/// The stubs of one doc, one per valid alias in order.
pub open spec fn doc_stubs(base: Seq<char>, site: Option<Seq<char>>, d: Doc, als: Seq<Seq<char>>) -> Seq<(Seq<char>, Seq<char>, Seq<char>)>
    decreases als.len(),
{
    if als.len() == 0 {
        Seq::empty()
    } else {
        let r = doc_stubs(base, site, d, als.drop_last());
        match stub_view(base, site, d, als.last()) {
            Some(v) => r.push(v),
            None => r,
        }
    }
}

/// The stubs of every doc, in doc order, then alias order.
pub open spec fn all_stubs(base: Seq<char>, site: Option<Seq<char>>, docs: Seq<Doc>) -> Seq<(Seq<char>, Seq<char>, Seq<char>)>
    decreases docs.len(),
{
    if docs.len() == 0 {
        Seq::empty()
    } else {
        all_stubs(base, site, docs.drop_last()) + doc_stubs(base, site, docs.last(), aliases_of(docs.last()))
    }
}

/// Emit one redirect stub per alias across `docs`, in doc order then alias
/// order (the order the write phase's first-writer-wins tiebreak relies on).
pub fn alias_stubs(base_path: &str, site_url: Option<&str>, docs: &Vec<&Doc>) -> (r: Vec<Output>)
    ensures
        r@.map_values(|o: Output| out_view(o)) == all_stubs(
            base_path@,
            match site_url {
                Some(u) => Some(u@),
                None => None,
            },
            docs@.map_values(|d: &Doc| *d),
        ),
{
    let ghost site = match site_url {
        Some(u) => Some(u@),
        None => None::<Seq<char>>,
    };
    let ghost dv = docs@.map_values(|d: &Doc| *d);
    let mut out: Vec<Output> = Vec::new();
    let mut i: usize = 0;
    proof { assert(dv.take(0) =~= Seq::<Doc>::empty()); }
    while i < docs.len()
        invariant
            i <= docs@.len(),
            dv == docs@.map_values(|d: &Doc| *d),
            site == match site_url {
                Some(u) => Some(u@),
                None => None::<Seq<char>>,
            },
            out@.map_values(|o: Output| out_view(o)) == all_stubs(base_path@, site, dv.take(i as int)),
        decreases docs.len() - i,
    {
        let d = docs[i];
        proof {
            assert(dv.take(i + 1).drop_last() =~= dv.take(i as int));
            assert(dv.take(i + 1).last() == *d);
        }
        let ghost base_out = out@.map_values(|o: Output| out_view(o));
        match get(&d.data, "aliases") {
            Some(Yaml::List(l)) => {
                let ghost items = l@;
                let mut j: usize = 0;
                proof { assert(items.take(0) =~= Seq::<Yaml>::empty()); }
                while j < l.len()
                    invariant
                        j <= l@.len(),
                        items == l@,
                        site == match site_url {
                            Some(u) => Some(u@),
                            None => None::<Seq<char>>,
                        },
                        out@.map_values(|o: Output| out_view(o)) == base_out + doc_stubs(base_path@, site, *d, str_items(items.take(j as int))),
                    decreases l.len() - j,
                {
                    proof {
                        assert(items.take(j + 1).drop_last() =~= items.take(j as int));
                        assert(items.take(j + 1).last() == items[j as int]);
                    }
                    match as_str(&l[j]) {
                        Some(a) => {
                            let ghost before = out@.map_values(|o: Output| out_view(o));
                            proof {
                                let als = str_items(items.take(j as int));
                                assert(str_items(items.take(j + 1)) == als.push(a@));
                                assert(als.push(a@).drop_last() =~= als);
                                assert(doc_stubs(base_path@, site, *d, als.push(a@)) == match stub_view(base_path@, site, *d, a@) {
                                    Some(v) => doc_stubs(base_path@, site, *d, als).push(v),
                                    None => doc_stubs(base_path@, site, *d, als),
                                });
                            }
                            match make_stub(base_path, site_url, d, a) {
                                Some(o) => {
                                    out.push(o);
                                    proof {
                                        assert(out@.map_values(|o: Output| out_view(o)) =~= before.push(out_view(o)));
                                        let als = str_items(items.take(j as int));
                                        assert(before + doc_stubs(base_path@, site, *d, als).push(out_view(o)) =~= (before + doc_stubs(base_path@, site, *d, als)).push(out_view(o)));
                                    }
                                },
                                None => {},
                            }
                        },
                        None => {},
                    }
                    j += 1;
                }
                proof { assert(items.take(l@.len() as int) =~= items); }
            },
            _ => {
                proof {
                    assert(out@.map_values(|o: Output| out_view(o)) =~= base_out + doc_stubs(base_path@, site, *d, Seq::empty()));
                }
            },
        }
        i += 1;
    }
    proof { assert(dv.take(docs@.len() as int) =~= dv); }
    out
}

} // verus!
