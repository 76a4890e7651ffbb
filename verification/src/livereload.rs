//! Live reload for the dev server: routing of the reload endpoints and the
//! injection of the reload script into served HTML.

use vstd::prelude::*;

verus! {

/// Script served at `/__livereload.js`: reload when the event stream fires.
pub const LIVERELOAD_JS: &'static str = "new EventSource('/__livereload').onmessage = () => location.reload();\n";

/// Tag injected into served HTML pages.
pub const LIVERELOAD_TAG: &'static str = "<script src=\"/__livereload.js\"></script>";

/// What a request path is answered with.
#[derive(Debug, Clone, Copy, PartialEq, Eq, Structural)]
pub enum Route {
    /// The server-sent reload event stream.
    Events,
    /// The reload script.
    Script,
    /// A file from the output dir.
    Files,
}

/// The route of a request path.
pub fn route(path: &str) -> (r: Route)
    ensures
        r == if path@ == "/__livereload"@ {
            Route::Events
        } else if path@ == "/__livereload.js"@ {
            Route::Script
        } else {
            Route::Files
        },
{
    if crate::text::str_eq(path, "/__livereload") {
        Route::Events
    } else if crate::text::str_eq(path, "/__livereload.js") {
        Route::Script
    } else {
        Route::Files
    }
}

/// ASCII lower-casing of a byte.
pub open spec fn lower(b: u8) -> u8 {
    if 65 <= b <= 90 { (b + 32) as u8 } else { b }
}

/// `h[i..i + n.len()]` equals `n`, ignoring ASCII case.
pub open spec fn ci_at(h: Seq<u8>, n: Seq<u8>, i: int) -> bool {
    &&& 0 <= i
    &&& i + n.len() <= h.len()
    &&& forall|k: int| 0 <= k < n.len() ==> lower(#[trigger] h[i + k]) == lower(n[k])
}

/// Last position of `n` in `h`, ignoring ASCII case; `None` for an empty or
/// too-long needle.
pub open spec fn find_last_ci_spec(h: Seq<u8>, n: Seq<u8>) -> Option<int> {
    if n.len() == 0 || n.len() > h.len() {
        None
    } else if exists|i: int| ci_at(h, n, i) {
        Some(choose|i: int| ci_at(h, n, i) && forall|j: int| i < j ==> !ci_at(h, n, j))
    } else {
        None
    }
}

fn lower_exec(b: u8) -> (r: u8)
    ensures
        r == lower(b),
{
    if 65 <= b && b <= 90 { b + 32 } else { b }
}

/// Does `n` occur at `i` in `h`, ignoring ASCII case?
fn ci_at_exec(h: &[u8], n: &[u8], i: usize) -> (r: bool)
    requires
        i + n@.len() <= h@.len(),
    ensures
        r == ci_at(h@, n@, i as int),
{
    let hl = h.len();
    let mut k: usize = 0;
    while k < n.len()
        invariant
            k <= n@.len(),
            hl == h@.len(),
            i + n@.len() <= h@.len(),
            forall|m: int| 0 <= m < k ==> lower(#[trigger] h@[i + m]) == lower(n@[m]),
        decreases n.len() - k,
    {
        if lower_exec(h[i + k]) != lower_exec(n[k]) {
            return false;
        }
        k += 1;
    }
    true
}

/// Last occurrence of `needle` in `haystack`, ignoring ASCII case.
pub fn find_last_ci(haystack: &[u8], needle: &[u8]) -> (r: Option<usize>)
    ensures
        match r {
            Some(p) => find_last_ci_spec(haystack@, needle@) == Some(p as int) && p + needle@.len() <= haystack@.len(),
            None => find_last_ci_spec(haystack@, needle@) is None,
        },
{
    if needle.len() == 0 || needle.len() > haystack.len() {
        return None;
    }
    let mut i: usize = haystack.len() - needle.len() + 1;
    while i > 0
        invariant
            i <= haystack@.len() - needle@.len() + 1,
            0 < needle@.len() <= haystack@.len(),
            forall|j: int| i <= j ==> !ci_at(haystack@, needle@, j),
        decreases i,
    {
        if ci_at_exec(haystack, needle, i - 1) {
            proof {
                let p = (i - 1) as int;
                assert(ci_at(haystack@, needle@, p));
                let c = choose|c: int| ci_at(haystack@, needle@, c) && forall|j: int| c < j ==> !ci_at(haystack@, needle@, j);
                if c < p {
                    assert(!ci_at(haystack@, needle@, p));
                }
            }
            return Some(i - 1);
        }
        i -= 1;
    }
    None
}

/// `html` with the reload tag inserted before its last `</body>` (any case),
/// or appended when it has none.
pub open spec fn inject_spec(html: Seq<u8>) -> Seq<u8> {
    let tag = LIVERELOAD_TAG@.map_values(|c: char| c as u8);
    match find_last_ci_spec(html, "</body>"@.map_values(|c: char| c as u8)) {
        Some(p) => html.take(p) + tag + html.skip(p),
        None => html + tag,
    }
}

/// Append the bytes of an ASCII string.
fn push_ascii(out: &mut Vec<u8>, s: &str)
    requires
        s.is_ascii(),
    ensures
        final(out)@ == old(out)@ + s@.map_values(|c: char| c as u8),
{
    let cs = crate::text::chars_of(s);
    let mut i: usize = 0;
    while i < cs.len()
        invariant
            i <= cs@.len(),
            cs@ == s@,
            s.is_ascii(),
            out@ == old(out)@ + s@.take(i as int).map_values(|c: char| c as u8),
        decreases cs.len() - i,
    {
        proof { assert(s@.take(i + 1) =~= s@.take(i as int).push(cs@[i as int])); }
        out.push(cs[i] as u8);
        proof { assert(out@ =~= old(out)@ + s@.take(i + 1).map_values(|c: char| c as u8)); }
        i += 1;
    }
    proof { assert(s@.take(cs@.len() as int) =~= s@); }
}

/// Insert the reload script tag before the last `</body>` (case-insensitive),
/// or append it when there is none.
pub fn inject_livereload(html: &[u8]) -> (r: Vec<u8>)
    ensures
        r@ == inject_spec(html@),
{
    let mut needle: Vec<u8> = Vec::new();
    proof { reveal_strlit("</body>"); }
    push_ascii(&mut needle, "</body>");
    proof { reveal_strlit("<script src=\"/__livereload.js\"></script>"); }
    let mut out: Vec<u8> = Vec::new();
    match find_last_ci(html, needle.as_slice()) {
        Some(p) => {
            let mut i: usize = 0;
            while i < p
                invariant
                    i <= p,
                    p <= html@.len(),
                    out@ == html@.take(i as int),
                decreases p - i,
            {
                out.push(html[i]);
                proof { assert(out@ =~= html@.take(i + 1)); }
                i += 1;
            }
            push_ascii(&mut out, LIVERELOAD_TAG);
            let mut j: usize = p;
            let ghost mid = out@;
            while j < html.len()
                invariant
                    p <= j <= html@.len(),
                    out@ == mid + html@.subrange(p as int, j as int),
                decreases html.len() - j,
            {
                out.push(html[j]);
                proof { assert(out@ =~= mid + html@.subrange(p as int, j + 1)); }
                j += 1;
            }
            proof { assert(html@.subrange(p as int, html@.len() as int) =~= html@.skip(p as int)); }
        },
        None => {
            let mut i: usize = 0;
            while i < html.len()
                invariant
                    i <= html@.len(),
                    out@ == html@.take(i as int),
                decreases html.len() - i,
            {
                out.push(html[i]);
                proof { assert(out@ =~= html@.take(i + 1)); }
                i += 1;
            }
            proof { assert(html@.take(html@.len() as int) =~= html@); }
            push_ascii(&mut out, LIVERELOAD_TAG);
        },
    }
    out
}

} // verus!
