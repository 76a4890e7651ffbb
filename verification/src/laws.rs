//! Properties that hold across the library's operations: the shape and
//! stability of normalised URL fields, what escaping leaves out, how
//! defaults and theme layers combine, and what the link graph records.

use vstd::prelude::*;
use crate::config::{first_named, merge_named_spec, normalize_base_path_spec, normalize_site_url_spec};
use crate::doc::{has_ykey, merge_defaults};
use crate::html::{escape_char, escape_spec, strip_state, strip_tags_spec};
use crate::text::{trim_end_char, trim_start_char};
use crate::backlinks::Backlinks;
use crate::doc::Doc;
use crate::doc_index::{
    backlink_order, bucket_in, copies, docs_under, ids_are, ids_at, kept_positions, members, lemma_pos_of_pub, linkers, occ, pos_of, recorded_linkers, strs,
};
use crate::listing::{lemma_sort_contents, truncate};
use crate::order::{docs_of, sort_spec};
use crate::frontmatter::split_spec;
use crate::output::{first_claim, paths_of, Output};
use crate::permalink::to_url_spec;
use crate::text::ends_with;
use crate::paths::{parent_comps, Comp};
use crate::slug::slugify_spec;
use crate::text::find_from;
use crate::wikilink::{dir_of, stem_key};
use crate::wikitext::{close_from, dedup_paths, expand_text, first_in_dir, resolve_spec, resolved_ids, search_up};
use crate::paths::components;
use crate::sorted::{has_key, keys_sorted, lemma_lookup_at, lookup};
use crate::yaml::{dmerge, lemma_ykey_pos, ykey_pos, ymap_get, ymap_insert, YamlV};

verus! {

// ---------------------------------------------------------------------------
// Trimming
// ---------------------------------------------------------------------------

/// Trimming a trailing character leaves a prefix that does not end in it.
proof fn lemma_trim_end(s: Seq<char>, c: char)
    ensures
        trim_end_char(s, c).len() <= s.len(),
        trim_end_char(s, c) == s.take(trim_end_char(s, c).len() as int),
        trim_end_char(s, c).len() > 0 ==> trim_end_char(s, c).last() != c,
    decreases s.len(),
{
    if s.len() > 0 && s.last() == c {
        lemma_trim_end(s.drop_last(), c);
        let r = trim_end_char(s.drop_last(), c);
        assert(s.drop_last().take(r.len() as int) == s.take(r.len() as int));
    } else {
        assert(s.take(s.len() as int) == s);
    }
}

/// Trimming a leading character leaves a suffix that does not start with it.
proof fn lemma_trim_start(s: Seq<char>, c: char)
    ensures
        trim_start_char(s, c).len() <= s.len(),
        trim_start_char(s, c) == s.skip(s.len() - trim_start_char(s, c).len()),
        trim_start_char(s, c).len() > 0 ==> trim_start_char(s, c)[0] != c,
    decreases s.len(),
{
    if s.len() > 0 && s[0] == c {
        lemma_trim_start(s.drop_first(), c);
        let r = trim_start_char(s.drop_first(), c);
        assert(s.drop_first().skip(s.drop_first().len() - r.len()) == s.skip(s.len() - r.len()));
    } else {
        assert(s.skip(0) == s);
    }
}

// ---------------------------------------------------------------------------
// URL fields
// ---------------------------------------------------------------------------

/// A normalised base path is empty, or starts with `/`, does not end with
/// `/`, and has a character after its leading `/` that is not `/`; and
/// normalising it again changes nothing.
pub proof fn law_base_path_normal_form(s: Seq<char>)
    ensures
        normalize_base_path_spec(s).len() == 0 || {
            let n = normalize_base_path_spec(s);
            &&& n.len() >= 2
            &&& n[0] == '/'
            &&& n[1] != '/'
            &&& n.last() != '/'
        },
        normalize_base_path_spec(normalize_base_path_spec(s)) == normalize_base_path_spec(s),
{
    let u = trim_start_char(s, '/');
    let t = trim_end_char(u, '/');
    lemma_trim_start(s, '/');
    lemma_trim_end(u, '/');
    let n = normalize_base_path_spec(s);
    if t.len() == 0 {
        assert(n.len() == 0);
        assert(trim_start_char(n, '/') == n);
        assert(trim_end_char(n, '/') == n);
    } else {
        assert(t[0] == u[0]);
        assert(n == seq!['/'] + t);
        assert(n[1] == t[0]);
        assert(n.last() == t.last());
        assert(n.drop_first() =~= t);
        assert(trim_start_char(t, '/') == t);
        assert(trim_start_char(n, '/') == t);
        assert(trim_end_char(t, '/') == t);
    }
}

/// A normalised site URL does not end with `/`, and normalising it again
/// changes nothing.
pub proof fn law_site_url_normal_form(s: Seq<char>)
    ensures
        normalize_site_url_spec(s) matches Some(u) ==> u.len() > 0 && u.last() != '/' && normalize_site_url_spec(u)
            == Some(u),
{
    lemma_trim_end(s, '/');
    let t = trim_end_char(s, '/');
    if t.len() > 0 {
        assert(trim_end_char(t, '/') == t);
    }
}

/// A backlink listing is ordered by the options (ties by `id_path`), omits
/// before it limits, and is a prefix of the full ordered list of linking,
/// non-omitted docs: as many of them as the limit allows.
pub proof fn law_backlinks_ordered_omit_then_limit(docs: Seq<(String, Doc)>, bl: Seq<(String, Vec<String>)>, t: Seq<char>, opts: Backlinks)
    requires
        keys_sorted(docs),
        docs.len() <= usize::MAX,
        forall|u: Seq<char>| #[trigger] ids_are(lookup(bl, u), linkers(docs, u, docs.len() as int)),
    ensures
        ({
            let full = sort_spec(docs_of(docs), backlink_order(opts), kept_positions(docs, recorded_linkers(bl, t), strs(opts.omit@)));
            let listed = truncate(full, opts.limit);
            &&& forall|p: int|
                0 <= p < docs.len() ==> (#[trigger] full.contains(p as usize) <==> (links_to(docs[p].1, t) && !strs(
                    opts.omit@,
                ).contains(docs[p].0@)))
            &&& forall|y: usize| #[trigger] full.contains(y) ==> y < docs.len()
            &&& crate::order::sorted_by(docs_of(docs), backlink_order(opts), listed)
            &&& listed.len() == match opts.limit {
                Some(n) => if n < full.len() { n as int } else { full.len() as int },
                None => full.len() as int,
            }
            &&& listed == full.take(listed.len() as int)
        }),
{
    let all = Backlinks { order_by: opts.order_by, sort: opts.sort, omit: opts.omit, limit: None };
    law_backlinks_list_linking_docs(docs, bl, t, all);
    let full = sort_spec(docs_of(docs), backlink_order(opts), kept_positions(docs, recorded_linkers(bl, t), strs(opts.omit@)));
    assert(backlink_order(all) == backlink_order(opts));
    assert(strs(all.omit@) == strs(opts.omit@));
    assert(truncate(full, all.limit) == full);
    assert forall|p: int| 0 <= p < docs.len() implies (#[trigger] full.contains(p as usize) <==> (links_to(docs[p].1, t)
        && !strs(opts.omit@).contains(docs[p].0@))) by {
        if full.contains(p as usize) {
            assert((p as usize) < docs.len());
            assert(p as usize as int == p);
        }
    }
    crate::listing::lemma_sort_sorted(docs_of(docs), backlink_order(opts), kept_positions(docs, recorded_linkers(bl, t), strs(opts.omit@)));
    let listed = truncate(full, opts.limit);
    assert(listed =~= full.take(listed.len() as int));
    assert forall|i: int, j: int| 0 <= i < j < listed.len() implies !crate::order::before(
        backlink_order(opts),
        #[trigger] docs_of(docs)[listed[j] as int],
        #[trigger] docs_of(docs)[listed[i] as int],
    ) by {
        assert(listed[i] == full[i] && listed[j] == full[j]);
    }
}

// ---------------------------------------------------------------------------
// Taxonomy archives
// ---------------------------------------------------------------------------

/// The items a taxonomy archive lists for term `j` of `tx`.
pub open spec fn term_run_items(docs: Seq<(String, Doc)>, tx: Seq<(String, Vec<String>)>, q: Option<crate::query::QueryView>, j: int) -> Seq<usize> {
    crate::archive::term_items(docs, strs(tx[j].1@), q)
}

proof fn lemma_tax_runs_step(docs: Seq<(String, Doc)>, tx: Seq<(String, Vec<String>)>, q: Option<crate::query::QueryView>, tax: Seq<char>)
    requires
        tx.len() > 0,
    ensures
        ({
            let r = crate::archive::tax_runs(docs, tx.drop_last(), q, tax);
            let all = crate::archive::tax_runs(docs, tx, q, tax);
            let items = term_run_items(docs, tx, q, tx.len() - 1);
            &&& forall|j: int| 0 <= j < tx.len() - 1 ==> #[trigger] term_run_items(docs, tx, q, j) == term_run_items(
                docs,
                tx.drop_last(),
                q,
                j,
            )
            &&& q is Some && items.len() == 0 ==> all == r
            &&& !(q is Some && items.len() == 0) ==> all.len() == r.len() + 1 && all[r.len() as int].0 == tx[tx.len() - 1].0@
                && all[r.len() as int].2 == items && forall|i: int| 0 <= i < r.len() ==> #[trigger] all[i] == r[i]
        }),
{
    let p = tx.drop_last();
    assert forall|j: int| 0 <= j < tx.len() - 1 implies #[trigger] term_run_items(docs, tx, q, j) == term_run_items(
        docs,
        p,
        q,
        j,
    ) by {
        assert(tx[j] == p[j]);
    }
}

/// With a query, a taxonomy archive's runs are never empty: a term the
/// query empties gets no run.
pub proof fn law_taxonomy_archive_runs_nonempty(docs: Seq<(String, Doc)>, tx: Seq<(String, Vec<String>)>, q: Option<crate::query::QueryView>, tax: Seq<char>)
    requires
        q is Some,
    ensures
        forall|i: int| 0 <= i < crate::archive::tax_runs(docs, tx, q, tax).len() ==> (
        #[trigger] crate::archive::tax_runs(docs, tx, q, tax)[i]).2.len() > 0,
    decreases tx.len(),
{
    if tx.len() > 0 {
        law_taxonomy_archive_runs_nonempty(docs, tx.drop_last(), q, tax);
        lemma_tax_runs_step(docs, tx, q, tax);
        let r = crate::archive::tax_runs(docs, tx.drop_last(), q, tax);
        let all = crate::archive::tax_runs(docs, tx, q, tax);
        assert forall|i: int| 0 <= i < all.len() implies (#[trigger] all[i]).2.len() > 0 by {
            if i < r.len() {
                assert(all[i] == r[i]);
            }
        }
    }
}

/// Each run of a taxonomy archive belongs to a term and lists that term's
/// docs as the archive's query keeps them.
pub proof fn law_taxonomy_archive_runs_from_terms(docs: Seq<(String, Doc)>, tx: Seq<(String, Vec<String>)>, q: Option<crate::query::QueryView>, tax: Seq<char>)
    ensures
        forall|i: int| 0 <= i < crate::archive::tax_runs(docs, tx, q, tax).len() ==> exists|j: int|
            0 <= j < tx.len() && (#[trigger] crate::archive::tax_runs(docs, tx, q, tax)[i]).0 == tx[j].0@
                && crate::archive::tax_runs(docs, tx, q, tax)[i].2 == term_run_items(docs, tx, q, j),
    decreases tx.len(),
{
    if tx.len() > 0 {
        let p = tx.drop_last();
        law_taxonomy_archive_runs_from_terms(docs, p, q, tax);
        lemma_tax_runs_step(docs, tx, q, tax);
        let r = crate::archive::tax_runs(docs, p, q, tax);
        let all = crate::archive::tax_runs(docs, tx, q, tax);
        assert forall|i: int| 0 <= i < all.len() implies exists|j: int|
            0 <= j < tx.len() && (#[trigger] all[i]).0 == tx[j].0@ && all[i].2 == term_run_items(docs, tx, q, j) by {
            if i < r.len() {
                assert(all[i] == r[i]);
                let j = choose|j: int| 0 <= j < p.len() && r[i].0 == p[j].0@ && r[i].2 == term_run_items(docs, p, q, j);
                assert(tx[j] == p[j]);
                assert(term_run_items(docs, tx, q, j) == term_run_items(docs, p, q, j));
            } else {
                assert(all[i].0 == tx[tx.len() - 1].0@);
                assert(all[i].2 == term_run_items(docs, tx, q, tx.len() - 1));
            }
        }
    }
}

/// Every term of a taxonomy gets a run listing its docs as the archive's
/// query keeps them, unless the query leaves it empty.
pub proof fn law_taxonomy_archive_terms_get_runs(docs: Seq<(String, Doc)>, tx: Seq<(String, Vec<String>)>, q: Option<crate::query::QueryView>, tax: Seq<char>)
    ensures
        forall|j: int|
            #![trigger tx[j]]
            0 <= j < tx.len() && !(q is Some && term_run_items(docs, tx, q, j).len() == 0) ==> exists|i: int|
                0 <= i < crate::archive::tax_runs(docs, tx, q, tax).len() && crate::archive::tax_runs(docs, tx, q, tax)[i].0
                    == tx[j].0@ && crate::archive::tax_runs(docs, tx, q, tax)[i].2 == term_run_items(docs, tx, q, j),
    decreases tx.len(),
{
    if tx.len() > 0 {
        let p = tx.drop_last();
        law_taxonomy_archive_terms_get_runs(docs, p, q, tax);
        lemma_tax_runs_step(docs, tx, q, tax);
        let r = crate::archive::tax_runs(docs, p, q, tax);
        let all = crate::archive::tax_runs(docs, tx, q, tax);
        assert forall|j: int|
            #![trigger tx[j]]
            0 <= j < tx.len() && !(q is Some && term_run_items(docs, tx, q, j).len() == 0) implies exists|i: int|
                0 <= i < all.len() && all[i].0 == tx[j].0@ && all[i].2 == term_run_items(docs, tx, q, j) by {
            if j < p.len() {
                assert(tx[j] == p[j]);
                assert(term_run_items(docs, tx, q, j) == term_run_items(docs, p, q, j));
                assert(p[j] == tx[j]);
                let i = choose|i: int| 0 <= i < r.len() && r[i].0 == p[j].0@ && r[i].2 == term_run_items(docs, p, q, j);
                assert(all[i] == r[i]);
            } else {
                let i = r.len() as int;
                assert(all[i].0 == tx[j].0@ && all[i].2 == term_run_items(docs, tx, q, j));
            }
        }
    }
}

// ---------------------------------------------------------------------------
// Taxonomy buckets
// ---------------------------------------------------------------------------

/// A built taxonomy has no empty term: each term lists the docs that carry
/// it, newest first (ties by smallest `id_path`).
pub proof fn law_taxonomy_buckets_ordered_and_nonempty(tx: Seq<(String, Vec<String>)>, docs: Seq<(String, Doc)>, name: Seq<char>, t: Seq<char>)
    requires
        crate::doc_index::taxonomy_fits(tx, docs, name),
        has_key(tx, t),
        docs.len() <= usize::MAX,
    ensures
        ({
            let ps = sort_spec(docs_of(docs), crate::doc_index::tax_order(), members(docs_of(docs), name, t, docs.len() as int));
            &&& lookup(tx, t) matches Some(ids) && strs(ids@) == ids_at(docs, ps) && ids@.len() > 0
            &&& crate::order::sorted_by(docs_of(docs), crate::doc_index::tax_order(), ps)
            &&& forall|p: int| 0 <= p < docs.len() ==> (#[trigger] ps.contains(p as usize) <==> has_key(
                bucket_in(docs[p].1, name),
                t,
            ))
        }),
{
    let ds = docs_of(docs);
    let m = members(ds, name, t, docs.len() as int);
    let o = crate::doc_index::tax_order();
    let ps = sort_spec(ds, o, m);
    law_taxonomy_members(ds, name, t, docs.len() as int);
    lemma_sort_contents(ds, o, m);
    crate::listing::lemma_sort_sorted(ds, o, m);
    assert forall|p: int| 0 <= p < docs.len() implies (#[trigger] ps.contains(p as usize) <==> has_key(
        bucket_in(docs[p].1, name),
        t,
    )) by {
        assert(ds[p] == docs[p].1);
    }
    let ids = lookup(tx, t)->0;
    assert(strs(ids@).len() == ps.len());
}

// ---------------------------------------------------------------------------
// Default frontmatter by glob
// ---------------------------------------------------------------------------

/// The value of the last entry with key `k`.
pub open spec fn last_val(e: Seq<(YamlV, YamlV)>, k: YamlV) -> Option<YamlV>
    decreases e.len(),
{
    if e.len() == 0 {
        None
    } else if e.last().0 == k {
        Some(e.last().1)
    } else {
        last_val(e.drop_last(), k)
    }
}

/// The value the last rule matching `id` that sets `k` gives it.
pub open spec fn last_rule_value(rules: Seq<(Seq<char>, Seq<(YamlV, YamlV)>)>, id: Seq<char>, k: YamlV) -> Option<YamlV>
    decreases rules.len(),
{
    if rules.len() == 0 {
        None
    } else if crate::query::glob_hits(rules.last().0, id) && last_val(rules.last().1, k) is Some {
        last_val(rules.last().1, k)
    } else {
        last_rule_value(rules.drop_last(), id, k)
    }
}

proof fn lemma_insert_all_get(m: Seq<(YamlV, YamlV)>, e: Seq<(YamlV, YamlV)>, k: YamlV)
    ensures
        ymap_get(crate::defaults::insert_all(m, e), k) == match last_val(e, k) {
            Some(v) => Some(v),
            None => ymap_get(m, k),
        },
    decreases e.len(),
{
    if e.len() > 0 {
        lemma_insert_all_get(m, e.drop_last(), k);
        lemma_get_after_insert(crate::defaults::insert_all(m, e.drop_last()), e.last().0, e.last().1);
    }
}

proof fn lemma_combine_get(rules: Seq<(Seq<char>, Seq<(YamlV, YamlV)>)>, id: Seq<char>, k: YamlV)
    ensures
        ymap_get(crate::defaults::combine(rules, id), k) == last_rule_value(rules, id, k),
    decreases rules.len(),
{
    if rules.len() > 0 {
        lemma_combine_get(rules.drop_last(), id, k);
        if crate::query::glob_hits(rules.last().0, id) {
            lemma_insert_all_get(crate::defaults::combine(rules.drop_last(), id), rules.last().1, k);
        }
    } else {
        lemma_ykey_pos(Seq::<(YamlV, YamlV)>::empty(), k, 0);
    }
}

proof fn lemma_get_some(m: Seq<(YamlV, YamlV)>, k: YamlV)
    ensures
        ymap_get(m, k) is Some <==> has_ykey(m, k),
{
    lemma_ykey_pos(m, k, 0);
    if has_ykey(m, k) {
        let j = choose|j: int| 0 <= j < m.len() && (#[trigger] m[j]).0 == k;
        assert(m[j].0 == k);
    }
}

proof fn lemma_get_push(m: Seq<(YamlV, YamlV)>, e: (YamlV, YamlV), k: YamlV)
    ensures
        ymap_get(m.push(e), k) == if has_ykey(m, k) {
            ymap_get(m, k)
        } else if e.0 == k {
            Some(e.1)
        } else {
            None
        },
{
    let u = m.push(e);
    lemma_ykey_pos(m, k, 0);
    lemma_ykey_pos(u, k, 0);
    lemma_get_some(m, k);
    match ykey_pos(m, k, 0) {
        Some(i) => {
            assert(u[i] == m[i]);
            match ykey_pos(u, k, 0) {
                Some(j) => {
                    if j < i {
                        assert(u[j] == m[j]);
                    } else if j > i {
                        assert(u[i].0 == k);
                    }
                },
                None => {
                    assert(u[i].0 == k);
                },
            }
        },
        None => {
            match ykey_pos(u, k, 0) {
                Some(j) => {
                    if j < m.len() {
                        assert(u[j] == m[j]);
                    }
                },
                None => {
                    if e.0 == k {
                        assert(u[m.len() as int].0 == k);
                    }
                },
            }
        },
    }
}

#[verifier::spinoff_prover]
proof fn lemma_merge_get(data: Seq<(YamlV, YamlV)>, defs: Seq<(YamlV, YamlV)>, k: YamlV)
    ensures
        ymap_get(merge_defaults(data, defs), k) == if has_ykey(data, k) {
            ymap_get(data, k)
        } else {
            ymap_get(defs, k)
        },
    decreases defs.len(),
{
    if defs.len() > 0 {
        let d = defs.drop_last();
        lemma_merge_get(data, d, k);
        law_defaults_fill_every_key(data, d);
        let acc = merge_defaults(data, d);
        lemma_get_push(d, defs.last(), k);
        assert(d.push(defs.last()) == defs);
        if !has_ykey(acc, defs.last().0) {
            lemma_get_push(acc, defs.last(), k);
        }
        lemma_get_some(d, k);
        lemma_get_some(acc, k);
        lemma_get_some(data, k);
        assert(has_ykey(acc, k) <==> (has_ykey(data, k) || has_ykey(d, k)));
        assert(has_ykey(acc, defs.last().0) <==> (has_ykey(data, defs.last().0) || has_ykey(d, defs.last().0)));
        if !has_ykey(data, k) && has_ykey(acc, defs.last().0) && !has_ykey(d, k) && defs.last().0 == k {
            assert(false);
        }
    } else {
        lemma_ykey_pos(defs, k, 0);
        lemma_get_some(data, k);
        assert(merge_defaults(data, defs) == data);
    }
}

/// Filling defaults keeps every key the doc sets; a key it lacks takes the
/// value of the last rule (in config order) whose glob matches the doc and
/// which sets that key, and stays absent when no such rule exists.
pub proof fn law_defaults_last_rule_wins(data: Seq<(YamlV, YamlV)>, rules: Seq<(Seq<char>, Seq<(YamlV, YamlV)>)>, id: Seq<char>, k: YamlV)
    ensures
        ymap_get(merge_defaults(data, crate::defaults::combine(rules, id)), k) == if has_ykey(data, k) {
            ymap_get(data, k)
        } else {
            last_rule_value(rules, id, k)
        },
{
    lemma_merge_get(data, crate::defaults::combine(rules, id), k);
    lemma_combine_get(rules, id, k);
}

// ---------------------------------------------------------------------------
// Listings
// ---------------------------------------------------------------------------

/// A query's listing is the docs that pass its filters, stably sorted by its
/// order (ties keep store order), then cut to its limit: the listing is a
/// prefix of that sort, as long as the limit allows.
pub proof fn law_listing_is_stable_sort_then_limit(q: crate::query::QueryView, ds: Seq<Doc>, c: Seq<usize>)
    requires
        crate::listing::increasing(c),
    ensures
        ({
            let full = sort_spec(ds, crate::listing::query_order(q), crate::listing::filter_spec(q, ds, c));
            let e = crate::listing::eval_spec(q, ds, c);
            &&& forall|y: usize| #[trigger] full.contains(y) <==> (c.contains(y) && crate::listing::passes(q, ds[y as int]))
            &&& crate::order::sorted_by(ds, crate::listing::query_order(q), full)
            &&& crate::listing::stable_by(ds, crate::listing::query_order(q), full)
            &&& e.len() == match q.limit {
                Some(n) => if n < full.len() { n as int } else { full.len() as int },
                None => full.len() as int,
            }
            &&& e == full.take(e.len() as int)
            &&& crate::listing::stable_by(ds, crate::listing::query_order(q), e)
        }),
{
    let o = crate::listing::query_order(q);
    let f = crate::listing::filter_spec(q, ds, c);
    let full = sort_spec(ds, o, f);
    crate::listing::lemma_filter_contents(q, ds, c);
    crate::listing::lemma_filter_increasing(q, ds, c);
    lemma_sort_contents(ds, o, f);
    crate::listing::lemma_sort_sorted(ds, o, f);
    crate::listing::lemma_sort_stable(ds, o, f);
    let e = crate::listing::eval_spec(q, ds, c);
    assert(e =~= full.take(e.len() as int));
    assert forall|i: int, j: int|
        0 <= i < j < e.len() && !crate::order::before(o, #[trigger] ds[e[i] as int], #[trigger] ds[e[j] as int]) implies e[i]
        < e[j] by {
        assert(e[i] == full[i] && e[j] == full[j]);
    }
}

// ---------------------------------------------------------------------------
// Wikilink resolution against the stem index
// ---------------------------------------------------------------------------

/// Candidate `c` may be chosen under the link's directory prefix.
pub open spec fn eligible(c: (Seq<char>, Seq<char>), prefix: Option<Seq<char>>) -> bool {
    !(prefix matches Some(p) && !crate::wikilink::prefix_ok(dir_of(c.0), p))
}

/// `a` is at least as near to `src` as `b`, and on a tie its path is not
/// greater.
pub open spec fn no_worse(a: (Seq<char>, Seq<char>), b: (Seq<char>, Seq<char>), src: Seq<Comp>) -> bool {
    let da = crate::wikilink::comp_distance(src, dir_of(a.0));
    let db = crate::wikilink::comp_distance(src, dir_of(b.0));
    da <= db && (da == db ==> !crate::text::path_lt(b.0, a.0))
}

/// The chosen candidate is eligible and no other eligible candidate is
/// nearer the source, or as near with a smaller `id_path`; no choice means
/// no candidate is eligible.
pub proof fn law_resolve_picks_nearest(cs: Seq<(Seq<char>, Seq<char>)>, prefix: Option<Seq<char>>, src: Seq<Comp>, k: int)
    requires
        0 <= k <= cs.len(),
    ensures
        crate::wikilink::best_from(cs, prefix, src, k) matches Some(j) ==> 0 <= j < k && eligible(cs[j], prefix)
            && forall|m: int| 0 <= m < k && eligible(#[trigger] cs[m], prefix) ==> no_worse(cs[j], cs[m], src),
        crate::wikilink::best_from(cs, prefix, src, k) is None ==> forall|m: int| 0 <= m < k ==> !eligible(
            #[trigger] cs[m],
            prefix,
        ),
    decreases k,
{
    if k > 0 {
        law_resolve_picks_nearest(cs, prefix, src, k - 1);
        let c = cs[k - 1];
        crate::text::lemma_path_lt_irrefl(c.0);
        if eligible(c, prefix) {
            match crate::wikilink::best_from(cs, prefix, src, k - 1) {
                None => {},
                Some(j) => {
                    crate::text::lemma_path_lt_irrefl(cs[j].0);
                    let d = crate::wikilink::comp_distance(src, dir_of(c.0));
                    let dj = crate::wikilink::comp_distance(src, dir_of(cs[j].0));
                    if d < dj || (d == dj && crate::text::path_lt(c.0, cs[j].0)) {
                        assert forall|m: int| 0 <= m < k && eligible(#[trigger] cs[m], prefix) implies no_worse(
                            c,
                            cs[m],
                            src,
                        ) by {
                            if m < k - 1 {
                                assert(no_worse(cs[j], cs[m], src));
                                if crate::text::path_lt(cs[m].0, c.0) && d == dj {
                                    crate::text::lemma_path_lt_trans(cs[m].0, c.0, cs[j].0);
                                }
                            }
                        }
                    } else {
                        crate::text::lemma_path_lt_total(c.0, cs[j].0);
                    }
                },
            }
        }
    }
}

// ---------------------------------------------------------------------------
// Hashtags
// ---------------------------------------------------------------------------

proof fn lemma_scan_len(t: Seq<char>, i: int, out: Seq<char>)
    requires
        0 <= i <= t.len(),
    ensures
        crate::hashtag::scan_from(t, i, out).0.len() <= out.len() + (t.len() - i),
        crate::hashtag::scan_from(t, i, out).1.len() == 0 ==> crate::hashtag::scan_from(t, i, out).0 == out + t.skip(i),
    decreases t.len() - i,
{
    if i < t.len() {
        if crate::hashtag::tag_at(t, i) {
            crate::hashtag::lemma_run_end(t, i + 1);
            let r = crate::hashtag::resume_at(t, i, out);
            lemma_scan_len(t, r, out);
        } else {
            lemma_scan_len(t, i + 1, out.push(t[i]));
            assert(out.push(t[i]) + t.skip(i + 1) =~= out + t.skip(i));
        }
    } else {
        assert(out + t.skip(i) =~= out);
    }
}

proof fn lemma_scan_no_opener(t: Seq<char>, i: int, out: Seq<char>)
    requires
        0 <= i <= t.len(),
        forall|k: int| i <= k < t.len() ==> !crate::hashtag::tag_at(t, k),
    ensures
        crate::hashtag::scan_from(t, i, out).1.len() == 0,
    decreases t.len() - i,
{
    if i < t.len() {
        lemma_scan_no_opener(t, i + 1, out.push(t[i]));
    }
}

/// Removing hashtags never lengthens the text; a text that yields no tag
/// comes back unchanged; and a `#` that is neither at the start nor after
/// whitespace never opens a tag, so text without such a `#` yields no tag.
pub proof fn law_hashtags_only_remove(t: Seq<char>)
    ensures
        crate::hashtag::scan_from(t, 0, Seq::empty()).0.len() <= t.len(),
        crate::hashtag::scan_from(t, 0, Seq::empty()).1.len() == 0 ==> crate::hashtag::scan_from(t, 0, Seq::empty()).0
            == t,
        forall|i: int| 0 < i < t.len() && !crate::text::is_ws(t[i - 1]) ==> !#[trigger] crate::hashtag::tag_at(t, i),
        (forall|i: int| 0 <= i < t.len() && #[trigger] t[i] == '#' ==> i > 0 && !crate::text::is_ws(t[i - 1]))
            ==> crate::hashtag::scan_from(t, 0, Seq::empty()) == (t, Seq::<Seq<char>>::empty()),
{
    lemma_scan_len(t, 0, Seq::empty());
    assert(Seq::<char>::empty() + t.skip(0) =~= t);
    if forall|i: int| 0 <= i < t.len() && #[trigger] t[i] == '#' ==> i > 0 && !crate::text::is_ws(t[i - 1]) {
        assert forall|k: int| 0 <= k < t.len() implies !crate::hashtag::tag_at(t, k) by {
            if crate::hashtag::tag_at(t, k) {
                assert(t[k] == '#');
            }
        }
        lemma_scan_no_opener(t, 0, Seq::empty());
        assert(crate::hashtag::scan_from(t, 0, Seq::empty()).1 =~= Seq::<Seq<char>>::empty());
    }
}

// ---------------------------------------------------------------------------
// Escaping
// ---------------------------------------------------------------------------

/// Escaped text holds no `<`, `>`, `"` or `'`: it cannot open or close a tag
/// or an attribute value.
pub proof fn law_escape_has_no_markup(s: Seq<char>)
    ensures
        forall|i: int|
            0 <= i < escape_spec(s).len() ==> {
                let c = #[trigger] escape_spec(s)[i];
                c != '<' && c != '>' && c != '"' && c != '\''
            },
    decreases s.len(),
{
    reveal_strlit("&amp;");
    reveal_strlit("&lt;");
    reveal_strlit("&gt;");
    reveal_strlit("&quot;");
    reveal_strlit("&#39;");
    if s.len() > 0 {
        law_escape_has_no_markup(s.drop_last());
        let a = escape_spec(s.drop_last());
        let b = escape_char(s.last());
        assert forall|i: int| 0 <= i < (a + b).len() implies {
            let c = #[trigger] (a + b)[i];
            c != '<' && c != '>' && c != '"' && c != '\''
        } by {
            if i < a.len() {
                assert((a + b)[i] == a[i]);
            } else {
                assert((a + b)[i] == b[i - a.len()]);
            }
        }
    }
}

// ---------------------------------------------------------------------------
// Collection defaults
// ---------------------------------------------------------------------------

/// Filling defaults never changes what the doc set itself: its own entries
/// come first, unchanged.
pub proof fn law_defaults_keep_own_frontmatter(data: Seq<(crate::yaml::YamlV, crate::yaml::YamlV)>, defs: Seq<
    (crate::yaml::YamlV, crate::yaml::YamlV),
>)
    ensures
        merge_defaults(data, defs).len() >= data.len(),
        merge_defaults(data, defs).take(data.len() as int) == data,
    decreases defs.len(),
{
    if defs.len() == 0 {
        assert(data.take(data.len() as int) == data);
    } else {
        law_defaults_keep_own_frontmatter(data, defs.drop_last());
        let acc = merge_defaults(data, defs.drop_last());
        assert(acc.push(defs.last()).take(data.len() as int) == acc.take(data.len() as int));
    }
}

/// After filling, a key is set exactly when the doc or the defaults set it.
pub proof fn law_defaults_fill_every_key(data: Seq<(crate::yaml::YamlV, crate::yaml::YamlV)>, defs: Seq<
    (crate::yaml::YamlV, crate::yaml::YamlV),
>)
    ensures
        forall|k: crate::yaml::YamlV| #[trigger] has_ykey(merge_defaults(data, defs), k) <==> (has_ykey(data, k) || has_ykey(
            defs,
            k,
        )),
    decreases defs.len(),
{
    if defs.len() > 0 {
        let d = defs.drop_last();
        law_defaults_fill_every_key(data, d);
        let acc = merge_defaults(data, d);
        assert forall|k: crate::yaml::YamlV| #[trigger] has_ykey(merge_defaults(data, defs), k) <==> (has_ykey(data, k)
            || has_ykey(defs, k)) by {
            if has_ykey(d, k) {
                let j = choose|j: int| 0 <= j < d.len() && (#[trigger] d[j]).0 == k;
                assert(defs[j] == d[j]);
            }
            if has_ykey(defs, k) {
                let j = choose|j: int| 0 <= j < defs.len() && (#[trigger] defs[j]).0 == k;
                if j < d.len() {
                    assert(d[j] == defs[j]);
                }
            }
            if !has_ykey(acc, defs.last().0) {
                let r = acc.push(defs.last());
                if has_ykey(r, k) {
                    let j = choose|j: int| 0 <= j < r.len() && (#[trigger] r[j]).0 == k;
                    if j < acc.len() {
                        assert(acc[j] == r[j]);
                    }
                }
                if has_ykey(acc, k) {
                    let j = choose|j: int| 0 <= j < acc.len() && (#[trigger] acc[j]).0 == k;
                    assert(r[j] == acc[j]);
                }
                assert(r[acc.len() as int] == defs.last());
            }
        }
    }
}

/// Defaults whose every key is already set add nothing.
proof fn lemma_defaults_settled(m: Seq<(crate::yaml::YamlV, crate::yaml::YamlV)>, defs: Seq<
    (crate::yaml::YamlV, crate::yaml::YamlV),
>)
    requires
        forall|j: int| 0 <= j < defs.len() ==> has_ykey(m, (#[trigger] defs[j]).0),
    ensures
        merge_defaults(m, defs) == m,
    decreases defs.len(),
{
    if defs.len() > 0 {
        let d = defs.drop_last();
        assert forall|j: int| 0 <= j < d.len() implies has_ykey(m, (#[trigger] d[j]).0) by {
            assert(d[j] == defs[j]);
        }
        lemma_defaults_settled(m, d);
        assert(has_ykey(m, defs[defs.len() - 1].0));
    }
}

/// Filling the same defaults twice is the same as filling them once.
pub proof fn law_defaults_idempotent(data: Seq<(crate::yaml::YamlV, crate::yaml::YamlV)>, defs: Seq<
    (crate::yaml::YamlV, crate::yaml::YamlV),
>)
    ensures
        merge_defaults(merge_defaults(data, defs), defs) == merge_defaults(data, defs),
{
    let m = merge_defaults(data, defs);
    law_defaults_fill_every_key(data, defs);
    assert forall|j: int| 0 <= j < defs.len() implies has_ykey(m, (#[trigger] defs[j]).0) by {
        assert(has_ykey(defs, defs[j].0));
    }
    lemma_defaults_settled(m, defs);
}

// ---------------------------------------------------------------------------
// Layering the `site:` map
// ---------------------------------------------------------------------------

/// No two entries of `m` share a key, as in a parsed YAML mapping.
pub open spec fn keys_distinct(m: Seq<(YamlV, YamlV)>) -> bool {
    forall|i: int, j: int| 0 <= i < j < m.len() ==> (#[trigger] m[i]).0 != (#[trigger] m[j]).0
}

/// Setting the value at the first position of key `k` makes `k` read that
/// value and leaves every other key as it was.
proof fn lemma_get_after_set(m: Seq<(YamlV, YamlV)>, p: int, k: YamlV, w: YamlV)
    requires
        ykey_pos(m, k, 0) == Some(p),
    ensures
        ymap_get(m.update(p, (k, w)), k) == Some(w),
        forall|k2: YamlV| k2 != k ==> #[trigger] ymap_get(m.update(p, (k, w)), k2) == ymap_get(m, k2),
{
    let u = m.update(p, (k, w));
    lemma_ykey_pos(m, k, 0);
    lemma_ykey_pos(u, k, 0);
    assert forall|k2: YamlV| k2 != k implies #[trigger] ymap_get(u, k2) == ymap_get(m, k2) by {
        lemma_ykey_pos(m, k2, 0);
        lemma_ykey_pos(u, k2, 0);
        match ykey_pos(m, k2, 0) {
            Some(q) => {
                assert(u[q] == m[q]);
                if ykey_pos(u, k2, 0) != Some(q) {
                    let r = ykey_pos(u, k2, 0).unwrap();
                    assert(u[r] == m[r]);
                }
            },
            None => {
                if ykey_pos(u, k2, 0) is Some {
                    let r = ykey_pos(u, k2, 0).unwrap();
                    assert(u[r] == m[r]);
                }
            },
        }
    }
    assert(u[p] == (k, w));
    match ykey_pos(u, k, 0) {
        Some(r) => {
            if r < p {
                assert(u[r] == m[r]);
            }
        },
        None => {},
    }
}

/// `Mapping::insert` makes `k` read `v` and leaves every other key as it was.
proof fn lemma_get_after_insert(m: Seq<(YamlV, YamlV)>, k: YamlV, v: YamlV)
    ensures
        ymap_get(ymap_insert(m, k, v), k) == Some(v),
        forall|k2: YamlV| k2 != k ==> #[trigger] ymap_get(ymap_insert(m, k, v), k2) == ymap_get(m, k2),
{
    lemma_ykey_pos(m, k, 0);
    match ykey_pos(m, k, 0) {
        Some(p) => lemma_get_after_set(m, p, k, v),
        None => {
            let u = m.push((k, v));
            lemma_ykey_pos(u, k, 0);
            assert(u[m.len() as int] == (k, v));
            match ykey_pos(u, k, 0) {
                Some(r) => {
                    if r < m.len() {
                        assert(u[r] == m[r]);
                    }
                },
                None => {},
            }
            assert forall|k2: YamlV| k2 != k implies #[trigger] ymap_get(u, k2) == ymap_get(m, k2) by {
                lemma_ykey_pos(m, k2, 0);
                lemma_ykey_pos(u, k2, 0);
                match ykey_pos(m, k2, 0) {
                    Some(q) => {
                        assert(u[q] == m[q]);
                        if ykey_pos(u, k2, 0) != Some(q) {
                            let r = ykey_pos(u, k2, 0).unwrap();
                            assert(u[r] == m[r]);
                        }
                    },
                    None => {
                        if ykey_pos(u, k2, 0) is Some {
                            let r = ykey_pos(u, k2, 0).unwrap();
                            if r < m.len() {
                                assert(u[r] == m[r]);
                            }
                        }
                    },
                }
            }
        },
    }
}

/// One merge step touches only the key it merges.
proof fn lemma_dmerge_step(b: Seq<(YamlV, YamlV)>, o: Seq<(YamlV, YamlV)>, i: int)
    requires
        0 < i <= o.len(),
    ensures
        forall|k2: YamlV| k2 != o[i - 1].0 ==> #[trigger] ymap_get(dmerge(b, o, i), k2) == ymap_get(dmerge(b, o, i - 1), k2),
        !(o[i - 1].1 is Dict) ==> ymap_get(dmerge(b, o, i), o[i - 1].0) == Some(o[i - 1].1),
{
    let acc = dmerge(b, o, i - 1);
    let k = o[i - 1].0;
    let v = o[i - 1].1;
    lemma_get_after_insert(acc, k, v);
    lemma_ykey_pos(acc, k, 0);
    match v {
        YamlV::Dict(om) => match ykey_pos(acc, k, 0) {
            Some(p) => match acc[p].1 {
                YamlV::Dict(bm) => {
                    assert(acc[p].0 == k);
                    lemma_get_after_set(acc, p, k, YamlV::Dict(dmerge(bm, om, om.len() as int)));
                },
                _ => {},
            },
            None => {},
        },
        _ => {},
    }
}

/// Layering the site's `site:` map over the theme's: a scalar or list the
/// site sets is what the merged map holds, and a key the site leaves alone
/// keeps the theme's value (the site wins; nothing of the theme's is lost).
pub proof fn law_site_map_site_wins(theme: Seq<(YamlV, YamlV)>, site: Seq<(YamlV, YamlV)>)
    requires
        keys_distinct(site),
    ensures
        forall|j: int|
            0 <= j < site.len() && !((#[trigger] site[j]).1 is Dict) ==> ymap_get(
                dmerge(theme, site, site.len() as int),
                site[j].0,
            ) == Some(site[j].1),
        forall|k: YamlV|
            (forall|j: int| 0 <= j < site.len() ==> (#[trigger] site[j]).0 != k) ==> #[trigger] ymap_get(
                dmerge(theme, site, site.len() as int),
                k,
            ) == ymap_get(theme, k),
{
    lemma_site_wins_upto(theme, site, site.len() as int);
}

proof fn lemma_site_wins_upto(theme: Seq<(YamlV, YamlV)>, site: Seq<(YamlV, YamlV)>, i: int)
    requires
        keys_distinct(site),
        0 <= i <= site.len(),
    ensures
        forall|j: int|
            0 <= j < i && !((#[trigger] site[j]).1 is Dict) ==> ymap_get(dmerge(theme, site, i), site[j].0) == Some(
                site[j].1,
            ),
        forall|k: YamlV|
            (forall|j: int| 0 <= j < i ==> (#[trigger] site[j]).0 != k) ==> #[trigger] ymap_get(dmerge(theme, site, i), k)
                == ymap_get(theme, k),
    decreases i,
{
    if i > 0 {
        lemma_site_wins_upto(theme, site, i - 1);
        lemma_dmerge_step(theme, site, i);
        assert forall|j: int| 0 <= j < i && !((#[trigger] site[j]).1 is Dict) implies ymap_get(
            dmerge(theme, site, i),
            site[j].0,
        ) == Some(site[j].1) by {
            if j < i - 1 {
                assert(site[j].0 != site[i - 1].0);
            }
        }
        assert forall|k: YamlV| (forall|j: int| 0 <= j < i ==> (#[trigger] site[j]).0 != k) implies #[trigger] ymap_get(
            dmerge(theme, site, i),
            k,
        ) == ymap_get(theme, k) by {
            assert(site[i - 1].0 != k);
        }
    }
}

// ---------------------------------------------------------------------------
// Layering named lists (collections, defaults)
// ---------------------------------------------------------------------------

/// `p` is the first position of `n` in `s`.
pub open spec fn is_first_named<T>(s: Seq<(Seq<char>, T)>, n: Seq<char>, p: int) -> bool {
    &&& 0 <= p < s.len()
    &&& s[p].0 == n
    &&& forall|j: int| 0 <= j < p ==> s[j].0 != n
}

/// First position of `n` in `s` at or after `from`.
spec fn name_pos<T>(s: Seq<(Seq<char>, T)>, n: Seq<char>, from: int) -> Option<int>
    decreases s.len() - from,
{
    if from < 0 || from >= s.len() {
        None
    } else if s[from].0 == n {
        Some(from)
    } else {
        name_pos(s, n, from + 1)
    }
}

proof fn lemma_name_pos<T>(s: Seq<(Seq<char>, T)>, n: Seq<char>, from: int)
    requires
        0 <= from,
    ensures
        name_pos(s, n, from) matches Some(p) ==> from <= p < s.len() && s[p].0 == n && forall|j: int|
            from <= j < p ==> s[j].0 != n,
        name_pos(s, n, from) is None ==> forall|j: int| from <= j < s.len() ==> s[j].0 != n,
    decreases s.len() - from,
{
    if from < s.len() && s[from].0 != n {
        lemma_name_pos(s, n, from + 1);
    }
}

/// `first_named` finds the first position of a name, or reports that the
/// name is absent.
proof fn lemma_first_named<T>(s: Seq<(Seq<char>, T)>, n: Seq<char>)
    ensures
        first_named(s, n) matches Some(p) ==> is_first_named(s, n, p),
        first_named(s, n) is None ==> forall|j: int| 0 <= j < s.len() ==> s[j].0 != n,
{
    lemma_name_pos(s, n, 0);
    if exists|i: int| 0 <= i < s.len() && s[i].0 == n {
        let p = name_pos(s, n, 0).unwrap();
        assert(is_first_named(s, n, p));
    }
}

/// The first position of a name is unique.
proof fn lemma_first_named_is<T>(s: Seq<(Seq<char>, T)>, n: Seq<char>, p: int)
    requires
        is_first_named(s, n, p),
    ensures
        first_named(s, n) == Some(p),
{
    lemma_first_named(s, n);
    let q = first_named(s, n).unwrap();
    if q < p {
        assert(s[q].0 != n);
    } else if q > p {
        assert(s[p].0 != n);
    }
}

/// The names of a named list, in order.
pub open spec fn names_of<T>(s: Seq<(Seq<char>, T)>) -> Seq<Seq<char>> {
    s.map_values(|p: (Seq<char>, T)| p.0)
}

/// The override names `base` lacks, in the order they first occur.
pub open spec fn fresh_names<T>(base: Seq<(Seq<char>, T)>, ov: Seq<(Seq<char>, T)>) -> Seq<Seq<char>>
    decreases ov.len(),
{
    if ov.len() == 0 {
        Seq::empty()
    } else {
        let f = fresh_names(base, ov.drop_last());
        let n = ov.last().0;
        if names_of(base).contains(n) || f.contains(n) {
            f
        } else {
            f.push(n)
        }
    }
}

/// Layering named overrides keeps the base's names in place and appends
/// each new name once, in the order the overrides first name it.
pub proof fn law_merge_named_order<T>(base: Seq<(Seq<char>, T)>, ov: Seq<(Seq<char>, T)>)
    ensures
        names_of(merge_named_spec(base, ov)) == names_of(base) + fresh_names(base, ov),
    decreases ov.len(),
{
    if ov.len() > 0 {
        let d = ov.drop_last();
        law_merge_named_order(base, d);
        let acc = merge_named_spec(base, d);
        let n = ov.last().0;
        let v = ov.last().1;
        let f = fresh_names(base, d);
        lemma_first_named(acc, n);
        let na = names_of(acc);
        assert(na == names_of(base) + f);
        if names_of(base).contains(n) || f.contains(n) {
            assert(na.contains(n)) by {
                if names_of(base).contains(n) {
                    let i = choose|i: int| 0 <= i < names_of(base).len() && names_of(base)[i] == n;
                    assert(na[i] == n);
                } else {
                    let i = choose|i: int| 0 <= i < f.len() && f[i] == n;
                    assert(na[names_of(base).len() + i] == n);
                }
            }
            let i = choose|i: int| 0 <= i < na.len() && na[i] == n;
            assert(acc[i].0 == n);
            let p = first_named(acc, n).unwrap();
            assert(names_of(acc.update(p, (n, v))) =~= na);
        } else {
            assert forall|j: int| 0 <= j < acc.len() implies acc[j].0 != n by {
                assert(na[j] == acc[j].0);
                if j < names_of(base).len() {
                    assert(names_of(base)[j] == na[j]);
                } else {
                    assert(f[j - names_of(base).len()] == na[j]);
                }
            }
            assert(names_of(acc.push((n, v))) =~= na.push(n));
            assert(names_of(base) + f.push(n) =~= (names_of(base) + f).push(n));
        }
    } else {
        assert(names_of(base) + Seq::<Seq<char>>::empty() =~= names_of(base));
    }
}

proof fn lemma_fresh_names<T>(base: Seq<(Seq<char>, T)>, ov: Seq<(Seq<char>, T)>)
    ensures
        forall|i: int| 0 <= i < fresh_names(base, ov).len() ==> !names_of(base).contains(#[trigger] fresh_names(base, ov)[i]),
        forall|i: int, j: int| 0 <= i < j < fresh_names(base, ov).len() ==> #[trigger] fresh_names(base, ov)[i]
            != #[trigger] fresh_names(base, ov)[j],
    decreases ov.len(),
{
    if ov.len() > 0 {
        lemma_fresh_names(base, ov.drop_last());
        let f = fresh_names(base, ov.drop_last());
        let n = ov.last().0;
        if !(names_of(base).contains(n) || f.contains(n)) {
            let g = f.push(n);
            assert forall|i: int| 0 <= i < g.len() implies !names_of(base).contains(#[trigger] g[i]) by {
                if i < f.len() {
                    assert(g[i] == f[i]);
                }
            }
            assert forall|i: int, j: int| 0 <= i < j < g.len() implies #[trigger] g[i] != #[trigger] g[j] by {
                assert(g[i] == f[i]);
                if j < f.len() {
                    assert(g[j] == f[j]);
                } else {
                    assert(f.contains(f[i]));
                }
            }
        }
    }
}

/// Layering named overrides over a list with distinct names gives a list
/// with distinct names: no name, `all` included, is ever listed twice.
pub proof fn law_merge_named_distinct<T>(base: Seq<(Seq<char>, T)>, ov: Seq<(Seq<char>, T)>)
    requires
        forall|i: int, j: int| 0 <= i < j < base.len() ==> #[trigger] base[i].0 != #[trigger] base[j].0,
    ensures
        forall|i: int, j: int| 0 <= i < j < merge_named_spec(base, ov).len() ==> #[trigger] merge_named_spec(base, ov)[i].0
            != #[trigger] merge_named_spec(base, ov)[j].0,
{
    law_merge_named_order(base, ov);
    lemma_fresh_names(base, ov);
    let r = merge_named_spec(base, ov);
    let nb = names_of(base);
    let f = fresh_names(base, ov);
    assert(names_of(r).len() == r.len());
    assert forall|i: int, j: int| 0 <= i < j < r.len() implies #[trigger] r[i].0 != #[trigger] r[j].0 by {
        assert(names_of(r)[i] == r[i].0 && names_of(r)[j] == r[j].0);
        assert(names_of(r)[i] == (nb + f)[i] && names_of(r)[j] == (nb + f)[j]);
        if j < nb.len() {
            assert(nb[i] == base[i].0 && nb[j] == base[j].0);
        } else if i < nb.len() {
            assert(f[j - nb.len()] == r[j].0);
            assert(nb[i] == r[i].0);
            assert(nb.contains(nb[i]));
        } else {
            assert(f[i - nb.len()] == r[i].0 && f[j - nb.len()] == r[j].0);
        }
    }
}

/// Loading a site over a theme, each with distinct collection names, leaves
/// exactly one `all` collection: the layered list has distinct names, and
/// settling appends `all` only when neither layer declares it.
pub proof fn law_config_single_all<T>(theme: Seq<(Seq<char>, T)>, site: Seq<(Seq<char>, T)>, all_query: T)
    requires
        forall|i: int, j: int| 0 <= i < j < theme.len() ==> #[trigger] theme[i].0 != #[trigger] theme[j].0,
    ensures
        ({
            let m = merge_named_spec(theme, site);
            let f = if first_named(m, crate::config::ALL@) is Some {
                m
            } else {
                m.push((crate::config::ALL@, all_query))
            };
            &&& first_named(f, crate::config::ALL@) is Some
            &&& crate::config::named_at_most_once(f, crate::config::ALL@)
        }),
{
    let m = merge_named_spec(theme, site);
    let n = crate::config::ALL@;
    law_merge_named_distinct(theme, site);
    lemma_first_named(m, n);
    if first_named(m, n) is None {
        let f = m.push((n, all_query));
        assert(f[m.len() as int].0 == n);
        assert(first_named(f, n) is Some);
        assert forall|i: int, j: int| 0 <= i < j < f.len() && #[trigger] f[i].0 == n implies #[trigger] f[j].0 != n by {
            assert(f[i] == m[i]);
        }
    } else {
        assert forall|i: int, j: int| 0 <= i < j < m.len() && #[trigger] m[i].0 == n implies #[trigger] m[j].0 != n by {}
    }
}

/// With no overrides a named list is unchanged; overrides whose names the
/// list lacks (and which name nothing twice) are appended in their order.
pub proof fn law_merge_named_appends_new_names<T>(base: Seq<(Seq<char>, T)>, ov: Seq<(Seq<char>, T)>)
    requires
        forall|j: int, i: int| 0 <= j < ov.len() && 0 <= i < base.len() ==> #[trigger] base[i].0 != #[trigger] ov[j].0,
        forall|j: int, k: int| 0 <= j < k < ov.len() ==> #[trigger] ov[j].0 != #[trigger] ov[k].0,
    ensures
        merge_named_spec(base, Seq::<(Seq<char>, T)>::empty()) == base,
        merge_named_spec(base, ov) == base + ov,
    decreases ov.len(),
{
    if ov.len() > 0 {
        let d = ov.drop_last();
        law_merge_named_appends_new_names(base, d);
        let acc = merge_named_spec(base, d);
        let n = ov.last().0;
        assert(acc == base + d);
        assert(!exists|i: int| 0 <= i < acc.len() && acc[i].0 == n) by {
            assert forall|i: int| 0 <= i < acc.len() implies acc[i].0 != n by {
                if i < base.len() {
                    assert(acc[i] == base[i]);
                    assert(base[i].0 != ov[ov.len() - 1].0);
                } else {
                    assert(acc[i] == d[i - base.len()]);
                    assert(d[i - base.len()] == ov[i - base.len()]);
                    assert(ov[i - base.len()].0 != ov[ov.len() - 1].0);
                }
            }
        }
        assert(first_named(acc, n) is None);
        assert(merge_named_spec(base, ov) =~= base + ov);
    }
}

/// Layering a site's named entries over a theme's: the theme's entries keep
/// their places and names, an entry the site does not name keeps the theme's
/// value, and every name the site sets reads the site's last value for it
/// (the site wins by name).
pub proof fn law_merge_named_site_wins<T>(base: Seq<(Seq<char>, T)>, ov: Seq<(Seq<char>, T)>)
    ensures
        merge_named_spec(base, ov).len() >= base.len(),
        forall|i: int| 0 <= i < base.len() ==> (#[trigger] merge_named_spec(base, ov)[i]).0 == base[i].0,
        forall|i: int|
            0 <= i < base.len() && (forall|j: int| 0 <= j < ov.len() ==> (#[trigger] ov[j]).0 != base[i].0) ==> (
            #[trigger] merge_named_spec(base, ov)[i]) == base[i],
        forall|j: int|
            0 <= j < ov.len() && (forall|k: int| j < k < ov.len() ==> (#[trigger] ov[k]).0 != ov[j].0) ==> ((
            #[trigger] first_named(merge_named_spec(base, ov), ov[j].0)) matches Some(p) && merge_named_spec(
                base,
                ov,
            )[p].1 == ov[j].1),
    decreases ov.len(),
{
    if ov.len() > 0 {
        let d = ov.drop_last();
        law_merge_named_site_wins(base, d);
        let acc = merge_named_spec(base, d);
        let (n, v) = ov.last();
        let r = merge_named_spec(base, ov);
        lemma_first_named(acc, n);
        // every old position keeps its name, and only the entry for `n` changes
        assert(r.len() >= acc.len());
        assert forall|i: int| 0 <= i < acc.len() implies (#[trigger] r[i]).0 == acc[i].0 && (acc[i].0 != n ==> r[i]
            == acc[i]) by {}
        assert forall|i: int| 0 <= i < base.len() implies (#[trigger] r[i]).0 == base[i].0 by {
            assert(r[i].0 == acc[i].0);
        }
        assert forall|i: int|
            0 <= i < base.len() && (forall|j: int| 0 <= j < ov.len() ==> (#[trigger] ov[j]).0 != base[i].0) implies (
            #[trigger] r[i]) == base[i] by {
            assert forall|j: int| 0 <= j < d.len() implies (#[trigger] d[j]).0 != base[i].0 by {
                assert(d[j] == ov[j]);
            }
            assert(ov[ov.len() - 1].0 != base[i].0);
            assert(acc[i] == base[i]);
        }
        assert forall|j: int|
            0 <= j < ov.len() && (forall|k: int| j < k < ov.len() ==> (#[trigger] ov[k]).0 != ov[j].0) implies ((
            #[trigger] first_named(r, ov[j].0)) matches Some(p) && r[p].1 == ov[j].1) by {
            if j == ov.len() - 1 {
                match first_named(acc, n) {
                    Some(q) => {
                        assert(is_first_named(r, n, q));
                        lemma_first_named_is(r, n, q);
                    },
                    None => {
                        assert(is_first_named(r, n, acc.len() as int));
                        lemma_first_named_is(r, n, acc.len() as int);
                    },
                }
            } else {
                let m = ov[j].0;
                assert(ov[ov.len() - 1].0 != m);
                assert(d[j] == ov[j]);
                assert forall|k: int| j < k < d.len() implies (#[trigger] d[k]).0 != d[j].0 by {
                    assert(d[k] == ov[k]);
                }
                let p = first_named(acc, m).unwrap();
                lemma_first_named(acc, m);
                assert(is_first_named(r, m, p));
                lemma_first_named_is(r, m, p);
            }
        }
    }
}

// ---------------------------------------------------------------------------
// The link graph
// ---------------------------------------------------------------------------

/// `d` links to `t`.
pub open spec fn links_to(d: Doc, t: Seq<char>) -> bool {
    exists|j: int| 0 <= j < d.links@.len() && (#[trigger] d.links@[j])@ == t
}

proof fn lemma_occ(links: Seq<String>, t: Seq<char>)
    ensures
        occ(links, t) > 0 <==> exists|j: int| 0 <= j < links.len() && (#[trigger] links[j])@ == t,
    decreases links.len(),
{
    if links.len() > 0 {
        let d = links.drop_last();
        lemma_occ(d, t);
        if exists|j: int| 0 <= j < d.len() && (#[trigger] d[j])@ == t {
            let j = choose|j: int| 0 <= j < d.len() && (#[trigger] d[j])@ == t;
            assert(links[j] == d[j]);
        }
        if exists|j: int| 0 <= j < links.len() && (#[trigger] links[j])@ == t {
            let j = choose|j: int| 0 <= j < links.len() && (#[trigger] links[j])@ == t;
            if j < d.len() {
                assert(d[j] == links[j]);
            }
        }
    }
}

/// The recorded linkers of `t` among the first `k` docs are exactly the ids
/// of those docs that link to `t`.
proof fn lemma_linkers_contains(docs: Seq<(String, Doc)>, t: Seq<char>, k: int)
    requires
        0 <= k <= docs.len(),
    ensures
        forall|id: Seq<char>| #[trigger] linkers(docs, t, k).contains(id) <==> exists|i: int|
            0 <= i < k && (#[trigger] docs[i]).0@ == id && links_to(docs[i].1, t),
    decreases k,
{
    if k > 0 {
        lemma_linkers_contains(docs, t, k - 1);
        let a = linkers(docs, t, k - 1);
        let c = copies(docs[k - 1].0@, occ(docs[k - 1].1.links@, t));
        lemma_occ(docs[k - 1].1.links@, t);
        assert forall|id: Seq<char>| #[trigger] linkers(docs, t, k).contains(id) <==> exists|i: int|
            0 <= i < k && (#[trigger] docs[i]).0@ == id && links_to(docs[i].1, t) by {
            let l = a + c;
            assert(linkers(docs, t, k) == l);
            if l.contains(id) {
                let m = choose|m: int| 0 <= m < l.len() && l[m] == id;
                if m < a.len() {
                    assert(l[m] == a[m]);
                    assert(a.contains(id));
                } else {
                    assert(l[m] == c[m - a.len()]);
                    assert(docs[k - 1].0@ == id && links_to(docs[k - 1].1, t));
                }
            }
            if exists|i: int| 0 <= i < k && (#[trigger] docs[i]).0@ == id && links_to(docs[i].1, t) {
                let i = choose|i: int| 0 <= i < k && (#[trigger] docs[i]).0@ == id && links_to(docs[i].1, t);
                if i < k - 1 {
                    assert(a.contains(id));
                    let m = choose|m: int| 0 <= m < a.len() && a[m] == id;
                    assert(l[m] == a[m]);
                } else {
                    assert(c.len() > 0);
                    assert(l[a.len() as int] == c[0]);
                }
            }
        }
    }
}

/// The kept positions of `ids` are the store positions whose key is among
/// `ids` and not omitted.
proof fn lemma_kept_contains(docs: Seq<(String, Doc)>, ids: Seq<Seq<char>>, omit: Seq<Seq<char>>)
    requires
        keys_sorted(docs),
        docs.len() <= usize::MAX,
    ensures
        forall|p: int| 0 <= p < docs.len() ==> (#[trigger] kept_positions(docs, ids, omit).contains(p as usize) <==> (
            ids.contains(docs[p].0@) && !omit.contains(docs[p].0@))),
        forall|y: usize| #[trigger] kept_positions(docs, ids, omit).contains(y) ==> y < docs.len(),
    decreases ids.len(),
{
    if ids.len() > 0 {
        let d = ids.drop_last();
        lemma_kept_contains(docs, d, omit);
        let r = kept_positions(docs, d, omit);
        let k = ids.last();
        let full = kept_positions(docs, ids, omit);
        if has_key(docs, k) {
            let w = choose|w: int| 0 <= w < docs.len() && (#[trigger] docs[w]).0@ == k;
            lemma_pos_of_pub(docs, w);
        }
        assert forall|p: int| 0 <= p < docs.len() implies (#[trigger] full.contains(p as usize) <==> (ids.contains(
            docs[p].0@,
        ) && !omit.contains(docs[p].0@))) by {
            lemma_pos_of_pub(docs, p);
            if d.contains(docs[p].0@) {
                let m = choose|m: int| 0 <= m < d.len() && d[m] == docs[p].0@;
                assert(ids[m] == d[m]);
            }
            if ids.contains(docs[p].0@) {
                let m = choose|m: int| 0 <= m < ids.len() && ids[m] == docs[p].0@;
                if m < d.len() {
                    assert(d[m] == ids[m]);
                }
            }
            if full != r {
                assert(full == r.push(pos_of(docs, k) as usize));
                if full.contains(p as usize) && !r.contains(p as usize) {
                    let m = choose|m: int| 0 <= m < full.len() && full[m] == p as usize;
                    if m < r.len() {
                        assert(full[m] == r[m]);
                    }
                    assert(has_key(docs, k));
                    let w = pos_of(docs, k);
                    assert(0 <= w < docs.len() && docs[w].0@ == k);
                    assert(w == p);
                }
                if r.contains(p as usize) {
                    let m = choose|m: int| 0 <= m < r.len() && r[m] == p as usize;
                    assert(full[m] == r[m]);
                }
                if docs[p].0@ == k {
                    assert(has_key(docs, k));
                    assert(full[r.len() as int] == p as usize);
                }
            } else if docs[p].0@ == k {
                assert(has_key(docs, k));
            }
        }
        assert forall|y: usize| #[trigger] full.contains(y) implies y < docs.len() by {
            let m = choose|m: int| 0 <= m < full.len() && full[m] == y;
            if m < r.len() {
                assert(full[m] == r[m]);
                assert(r.contains(y));
            }
        }
    }
}

/// What a backlink listing holds, once the graph is built from the store:
/// with no limit, a doc is listed exactly when it links to the target and is
/// not omitted; with a limit, only such docs are listed.
pub proof fn law_backlinks_list_linking_docs(docs: Seq<(String, Doc)>, bl: Seq<(String, Vec<String>)>, t: Seq<char>, opts: Backlinks)
    requires
        keys_sorted(docs),
        docs.len() <= usize::MAX,
        forall|u: Seq<char>| #[trigger] ids_are(lookup(bl, u), linkers(docs, u, docs.len() as int)),
    ensures
        ({
            let listed = truncate(
                sort_spec(docs_of(docs), backlink_order(opts), kept_positions(docs, recorded_linkers(bl, t), strs(opts.omit@))),
                opts.limit,
            );
            &&& forall|y: usize| #[trigger] listed.contains(y) ==> y < docs.len() && links_to(docs[y as int].1, t) && !strs(
                opts.omit@,
            ).contains(docs[y as int].0@)
            &&& opts.limit is None ==> forall|p: int|
                0 <= p < docs.len() && links_to(docs[p].1, t) && !strs(opts.omit@).contains(docs[p].0@) ==> listed.contains(
                    #[trigger] (p as usize),
                )
        }),
{
    let omit = strs(opts.omit@);
    let ids = recorded_linkers(bl, t);
    let n = docs.len() as int;
    assert(ids_are(lookup(bl, t), linkers(docs, t, n)));
    assert(ids == linkers(docs, t, n));
    lemma_linkers_contains(docs, t, n);
    lemma_kept_contains(docs, ids, omit);
    let kept = kept_positions(docs, ids, omit);
    let sorted = sort_spec(docs_of(docs), backlink_order(opts), kept);
    lemma_sort_contents(docs_of(docs), backlink_order(opts), kept);
    let listed = truncate(sorted, opts.limit);
    assert forall|y: usize| #[trigger] listed.contains(y) implies y < docs.len() && links_to(docs[y as int].1, t)
        && !omit.contains(docs[y as int].0@) by {
        let m = choose|m: int| 0 <= m < listed.len() && listed[m] == y;
        assert(listed[m] == sorted[m]);
        assert(sorted.contains(y));
        assert(kept.contains(y));
        let p = y as int;
        assert(kept.contains(p as usize) <==> (ids.contains(docs[p].0@) && !omit.contains(docs[p].0@)));
        assert(linkers(docs, t, n).contains(docs[p].0@));
        let i = choose|i: int| 0 <= i < n && (#[trigger] docs[i]).0@ == docs[p].0@ && links_to(docs[i].1, t);
        if i != p {
            crate::text::lemma_path_lt_irrefl(docs[p].0@);
        }
    }
    if opts.limit is None {
        assert forall|p: int| 0 <= p < docs.len() && links_to(docs[p].1, t) && !omit.contains(docs[p].0@) implies listed.contains(
            #[trigger] (p as usize),
        ) by {
            assert(linkers(docs, t, n).contains(docs[p].0@));
            assert(kept.contains(p as usize));
        }
    }
}

// ---------------------------------------------------------------------------
// Collections and taxonomies
// ---------------------------------------------------------------------------

/// Reading a cached listing back: the docs stored under the `id_path`s of
/// some store positions are the docs at those positions, in order. So
/// `get_collection` after `define_collection` gives exactly the query's
/// listing over the store.
pub proof fn law_listing_read_back(docs: Seq<(String, Doc)>, ps: Seq<usize>)
    requires
        keys_sorted(docs),
        forall|i: int| 0 <= i < ps.len() ==> #[trigger] ps[i] < docs.len(),
    ensures
        docs_under(docs, ids_at(docs, ps)) == ps.map_values(|p: usize| docs_of(docs)[p as int]),
    decreases ps.len(),
{
    if ps.len() > 0 {
        let d = ps.drop_last();
        assert forall|i: int| 0 <= i < d.len() implies #[trigger] d[i] < docs.len() by {
            assert(d[i] == ps[i]);
        }
        law_listing_read_back(docs, d);
        let ids = ids_at(docs, ps);
        assert(ids.drop_last() =~= ids_at(docs, d));
        let p = ps.last() as int;
        assert(ids.last() == docs[p].0@);
        lemma_lookup_at(docs, p);
        assert(ps.map_values(|q: usize| docs_of(docs)[q as int]) =~= d.map_values(|q: usize| docs_of(docs)[q as int]).push(
            docs_of(docs)[p],
        ));
    }
}

/// A taxonomy term lists exactly the docs that carry that term.
pub proof fn law_taxonomy_members(ds: Seq<Doc>, name: Seq<char>, t: Seq<char>, k: int)
    requires
        0 <= k <= ds.len(),
        k <= usize::MAX + 1,
    ensures
        forall|p: int| 0 <= p < k ==> (#[trigger] members(ds, name, t, k).contains(p as usize) <==> has_key(
            bucket_in(ds[p], name),
            t,
        )),
        forall|y: usize| #[trigger] members(ds, name, t, k).contains(y) ==> y < k,
    decreases k,
{
    if k > 0 {
        law_taxonomy_members(ds, name, t, k - 1);
        let m = members(ds, name, t, k - 1);
        let full = members(ds, name, t, k);
        assert forall|p: int| 0 <= p < k implies (#[trigger] full.contains(p as usize) <==> has_key(
            bucket_in(ds[p], name),
            t,
        )) by {
            if full != m {
                assert(full == m.push((k - 1) as usize));
                if full.contains(p as usize) && !m.contains(p as usize) {
                    let j = choose|j: int| 0 <= j < full.len() && full[j] == p as usize;
                    if j < m.len() {
                        assert(full[j] == m[j]);
                    }
                }
                if m.contains(p as usize) {
                    let j = choose|j: int| 0 <= j < m.len() && m[j] == p as usize;
                    assert(full[j] == m[j]);
                }
                if p == k - 1 {
                    assert(full[m.len() as int] == p as usize);
                }
            } else if p == k - 1 && m.contains(p as usize) {
                assert(false);
            }
        }
        assert forall|y: usize| #[trigger] full.contains(y) implies y < k by {
            let j = choose|j: int| 0 <= j < full.len() && full[j] == y;
            if j < m.len() {
                assert(full[j] == m[j]);
                assert(m.contains(y));
            }
        }
    }
}

// ---------------------------------------------------------------------------
// Frontmatter
// ---------------------------------------------------------------------------

/// Splitting loses nothing: a source with frontmatter is the opening
/// `---` line, the YAML text, the closing `---` line and the body; an empty
/// block may close directly on the line after the opening one.
pub proof fn law_frontmatter_split_reassembles(s: Seq<char>)
    ensures
        split_spec(s) matches Some((y, b)) ==> {
            let tail = if b.len() == 0 && (s.len() >= 4 && s.last() == '-') {
                Seq::<char>::empty()
            } else {
                seq!['\n'] + b
            };
            ||| s == seq!['-', '-', '-', '\n'] + y + seq!['\n', '-', '-', '-'] + tail
            ||| (y.len() == 0 && s == seq!['-', '-', '-', '\n', '-', '-', '-'] + tail)
        },
{
    if let Some((y, b)) = split_spec(s) {
        crate::frontmatter::lemma_close_from(s, 3);
        let k = crate::frontmatter::close_from(s, 3).unwrap();
        let tail = if b.len() == 0 && (s.len() >= 4 && s.last() == '-') {
            Seq::<char>::empty()
        } else {
            seq!['\n'] + b
        };
        if k + 4 == s.len() {
            assert(s.last() == s[k + 3]);
            assert(tail.len() == 0);
            assert(s.skip(k + 4).len() == 0);
        } else {
            assert(s[k + 4] == '\n');
            assert(s.last() != '-' || b.len() > 0 || tail == seq!['\n'] + b);
            if b.len() == 0 && s.last() == '-' {
                // the text ends right after the newline that closes the block
                assert(s.len() == k + 5);
                assert(s.last() == '\n');
            }
            assert(tail =~= s.skip(k + 4));
        }
        if k < 4 {
            assert(k == 3);
            assert(s =~= seq!['-', '-', '-', '\n', '-', '-', '-'] + tail);
        } else {
            assert(s =~= seq!['-', '-', '-', '\n'] + y + seq!['\n', '-', '-', '-'] + tail);
        }
    }
}

// ---------------------------------------------------------------------------
// Wikilinks in raw text
// ---------------------------------------------------------------------------

/// Text without a `[[` passes through unchanged and links to nothing.
pub proof fn law_wikitext_plain_text_unchanged(s: Seq<char>, source: Seq<char>, docs: Seq<crate::doc::DocMeta>)
    requires
        find_from(s, seq!['[', '['], 0) is None,
    ensures
        expand_text(s, 0, source, docs) == s,
        resolved_ids(s, 0, source, docs).len() == 0,
{
    assert(s.skip(0) == s);
}

proof fn lemma_first_in_dir_hit(docs: Seq<crate::doc::DocMeta>, dir: Seq<Comp>, ts: Seq<char>, k: int)
    requires
        0 <= k,
    ensures
        first_in_dir(docs, dir, ts, k) matches Some(i) ==> 0 <= i < docs.len() && dir_of(docs[i].id_path@) == dir
            && stem_key(docs[i].id_path@) == ts,
    decreases docs.len() - k,
{
    if k < docs.len() && !(dir_of(docs[k].id_path@) == dir && stem_key(docs[k].id_path@) == ts) {
        lemma_first_in_dir_hit(docs, dir, ts, k + 1);
    }
}

proof fn lemma_search_up_hit(docs: Seq<crate::doc::DocMeta>, dir: Seq<Comp>, ts: Seq<char>)
    ensures
        search_up(docs, dir, ts) matches Some(i) ==> 0 <= i < docs.len() && stem_key(docs[i].id_path@) == ts && ({
            let d = dir_of(docs[i].id_path@);
            d.len() <= dir.len() && dir.take(d.len() as int) == d
        }),
    decreases dir.len(),
{
    lemma_first_in_dir_hit(docs, dir, ts, 0);
    if first_in_dir(docs, dir, ts, 0) is None {
        if let Some(p) = parent_comps(dir) {
            if p.len() < dir.len() {
                lemma_search_up_hit(docs, p, ts);
                if let Some(i) = search_up(docs, p, ts) {
                    let d = dir_of(docs[i].id_path@);
                    assert(p == dir.drop_last());
                    assert(dir.take(d.len() as int) == p.take(d.len() as int));
                }
            }
        }
    } else {
        let i = first_in_dir(docs, dir, ts, 0).unwrap();
        assert(dir.take(dir.len() as int) == dir);
    }
}

/// A wikilink resolves only to a doc whose stem slugs to the target's slug
/// and which sits in the source's directory or one of its ancestors.
pub proof fn law_wikitext_resolves_up_the_tree(target: Seq<char>, source: Seq<char>, docs: Seq<crate::doc::DocMeta>)
    ensures
        resolve_spec(target, source, docs) matches Some(i) ==> 0 <= i < docs.len() && slugify_spec(target).len() > 0
            && stem_key(docs[i].id_path@) == slugify_spec(target) && ({
            let d = dir_of(docs[i].id_path@);
            let sd = dir_of(source);
            d.len() <= sd.len() && sd.take(d.len() as int) == d
        }),
{
    let ts = slugify_spec(target);
    if ts.len() > 0 {
        lemma_search_up_hit(docs, dir_of(source), ts);
    }
}

/// A link opened before `a` closes at `j` exactly when `j` is the first `]]`
/// at or after `a` and no newline or `[` comes before it.
pub proof fn law_link_closes_at_first_brackets(s: Seq<char>, a: int, j: int)
    requires
        0 <= a,
    ensures
        close_from(s, a) == Some(j) <==> (a <= j && j + 1 < s.len() && s[j] == ']' && s[j + 1] == ']' && forall|k: int|
            a <= k < j ==> #[trigger] s[k] != '\n' && s[k] != '[' && !(s[k] == ']' && s[k + 1] == ']')),
    decreases s.len() - a,
{
    if a + 1 < s.len() && !(s[a] == '\n' || s[a] == '[') && !(s[a] == ']' && s[a + 1] == ']') {
        law_link_closes_at_first_brackets(s, a + 1, j);
        if a <= j && j + 1 < s.len() && s[j] == ']' && s[j + 1] == ']' && forall|k: int|
            a + 1 <= k < j ==> #[trigger] s[k] != '\n' && s[k] != '[' && !(s[k] == ']' && s[k + 1] == ']') {
            assert(j != a);
            assert forall|k: int| a <= k < j implies #[trigger] s[k] != '\n' && s[k] != '[' && !(s[k] == ']' && s[k
                + 1] == ']') by {
                if k == a {
                } else {
                    assert(a + 1 <= k < j);
                }
            }
        }
        if a <= j && j + 1 < s.len() && s[j] == ']' && s[j + 1] == ']' && forall|k: int|
            a <= k < j ==> #[trigger] s[k] != '\n' && s[k] != '[' && !(s[k] == ']' && s[k + 1] == ']') {
            assert(j != a);
            assert forall|k: int| a + 1 <= k < j implies #[trigger] s[k] != '\n' && s[k] != '[' && !(s[k] == ']'
                && s[k + 1] == ']') by {
                assert(a <= k < j);
            }
        }
    } else if a + 1 < s.len() && (s[a] == '\n' || s[a] == '[') {
        if a <= j && j + 1 < s.len() && s[j] == ']' && forall|k: int|
            a <= k < j ==> #[trigger] s[k] != '\n' && s[k] != '[' && !(s[k] == ']' && s[k + 1] == ']') {
            assert(j != a);
            assert(s[a] != '\n');
        }
    }
}

/// An opening `[[` with no closing `]]` is copied as it is, and expansion
/// goes on right after it.
pub proof fn law_unclosed_link_copied(s: Seq<char>, i: int, o: int, source: Seq<char>, docs: Seq<crate::doc::DocMeta>)
    requires
        0 <= i <= o,
        o + 2 <= s.len(),
        find_from(s, seq!['[', '['], i) == Some(o),
        close_from(s, o + 2) is None,
    ensures
        expand_text(s, i, source, docs) == s.subrange(i, o) + seq!['[', '['] + expand_text(s, o + 2, source, docs),
        resolved_ids(s, i, source, docs) == resolved_ids(s, o + 2, source, docs),
{
    reveal_with_fuel(expand_text, 1);
    reveal_with_fuel(resolved_ids, 1);
    assert(!(o < i || o + 2 > s.len()));
}

#[verifier::spinoff_prover]
#[verifier::rlimit(40)]
proof fn lemma_resolved_known(s: Seq<char>, i: int, source: Seq<char>, docs: Seq<crate::doc::DocMeta>)
    ensures
        forall|a: int| 0 <= a < resolved_ids(s, i, source, docs).len() ==> exists|k: int|
            0 <= k < docs.len() && docs[k].id_path@ == #[trigger] resolved_ids(s, i, source, docs)[a],
    decreases s.len() - i,
{
    if 0 <= i <= s.len() {
        if let Some(o) = find_from(s, seq!['[', '['], i) {
            if !(o < i || o + 2 > s.len()) {
                match close_from(s, o + 2) {
                    Some(e) => {
                        if !(e < o + 2 || e + 2 > s.len()) {
                            lemma_resolved_known(s, e + 2, source, docs);
                            let t = split_target_display_spec_of(s.subrange(o + 2, e));
                            let rest = resolved_ids(s, e + 2, source, docs);
                            let r = resolved_ids(s, i, source, docs);
                            match resolve_spec(t, source, docs) {
                                Some(k) => {
                                    law_wikitext_resolves_up_the_tree(t, source, docs);
                                    assert(r == seq![docs[k].id_path@] + rest);
                                    assert forall|a: int| 0 <= a < r.len() implies exists|k2: int|
                                        0 <= k2 < docs.len() && docs[k2].id_path@ == #[trigger] r[a] by {
                                        if a == 0 {
                                            assert(docs[k].id_path@ == r[a]);
                                        } else {
                                            assert(r[a] == rest[a - 1]);
                                        }
                                    }
                                },
                                None => {
                                    assert(r =~= rest);
                                },
                            }
                        }
                    },
                    None => {
                        lemma_resolved_known(s, o + 2, source, docs);
                        let r = resolved_ids(s, i, source, docs);
                        let rest = resolved_ids(s, o + 2, source, docs);
                        assert(r == rest);
                        assert forall|a: int| 0 <= a < r.len() implies exists|k2: int|
                            0 <= k2 < docs.len() && docs[k2].id_path@ == #[trigger] r[a] by {
                            assert(r[a] == rest[a]);
                        }
                    },
                }
            }
        }
    }
}

spec fn split_target_display_spec_of(inside: Seq<char>) -> Seq<char> {
    crate::wikitext::split_target_display_spec(inside).0
}

proof fn lemma_dedup(ids: Seq<Seq<char>>)
    ensures
        forall|a: int| 0 <= a < dedup_paths(ids).len() ==> exists|k: int|
            0 <= k < ids.len() && ids[k] == #[trigger] dedup_paths(ids)[a],
        forall|a: int, b: int| 0 <= a < b < dedup_paths(ids).len() ==> components(#[trigger] dedup_paths(ids)[a])
            != components(#[trigger] dedup_paths(ids)[b]),
    decreases ids.len(),
{
    if ids.len() > 0 {
        let p = ids.drop_last();
        lemma_dedup(p);
        let d = dedup_paths(p);
        let r = dedup_paths(ids);
        assert forall|a: int| 0 <= a < r.len() implies exists|k: int| 0 <= k < ids.len() && ids[k] == #[trigger] r[a] by {
            if a < d.len() {
                assert(r[a] == d[a]);
                let k = choose|k: int| 0 <= k < p.len() && p[k] == d[a];
                assert(ids[k] == p[k]);
            } else {
                assert(r[a] == ids[ids.len() - 1]);
            }
        }
        if !(exists|j: int| 0 <= j < d.len() && components(#[trigger] d[j]) == components(ids.last())) {
            assert forall|a: int, b: int| 0 <= a < b < r.len() implies components(#[trigger] r[a]) != components(
                #[trigger] r[b],
            ) by {
                assert(r[a] == d[a]);
                if b < d.len() {
                    assert(r[b] == d[b]);
                } else {
                    assert(r[b] == ids.last());
                }
            }
        }
    }
}

/// The links expansion collects name docs that exist, and no path twice.
pub proof fn law_wikitext_links_known_and_distinct(s: Seq<char>, source: Seq<char>, docs: Seq<crate::doc::DocMeta>)
    ensures
        forall|a: int| 0 <= a < dedup_paths(resolved_ids(s, 0, source, docs)).len() ==> exists|k: int|
            0 <= k < docs.len() && docs[k].id_path@ == #[trigger] dedup_paths(resolved_ids(s, 0, source, docs))[a],
        forall|a: int, b: int| 0 <= a < b < dedup_paths(resolved_ids(s, 0, source, docs)).len() ==> components(
            #[trigger] dedup_paths(resolved_ids(s, 0, source, docs))[a],
        ) != components(#[trigger] dedup_paths(resolved_ids(s, 0, source, docs))[b]),
{
    let ids = resolved_ids(s, 0, source, docs);
    lemma_resolved_known(s, 0, source, docs);
    lemma_dedup(ids);
    let d = dedup_paths(ids);
    assert forall|a: int| 0 <= a < d.len() implies exists|k: int| 0 <= k < docs.len() && docs[k].id_path@ == #[trigger] d[a] by {
        let m = choose|m: int| 0 <= m < ids.len() && ids[m] == d[a];
        assert(exists|k: int| 0 <= k < docs.len() && docs[k].id_path@ == ids[m]);
    }
}

// ---------------------------------------------------------------------------
// Escaping
// ---------------------------------------------------------------------------

/// Text holding none of the five special characters escapes to itself.
pub proof fn law_escape_plain_text_unchanged(s: Seq<char>)
    requires
        forall|i: int| 0 <= i < s.len() ==> {
            let c = #[trigger] s[i];
            c != '&' && c != '<' && c != '>' && c != '"' && c != '\''
        },
    ensures
        escape_spec(s) == s,
    decreases s.len(),
{
    if s.len() > 0 {
        let p = s.drop_last();
        assert forall|i: int| 0 <= i < p.len() implies {
            let c = #[trigger] p[i];
            c != '&' && c != '<' && c != '>' && c != '"' && c != '\''
        } by {
            assert(p[i] == s[i]);
        }
        law_escape_plain_text_unchanged(p);
        let c = s[s.len() - 1];
        assert(escape_char(c) == seq![c]);
        assert(s =~= p.push(c));
    }
}

/// Reading escaped text back: each of the five entities `escape` writes
/// stands for its character; any other character stands for itself.
pub open spec fn unescape_spec(t: Seq<char>) -> Seq<char>
    decreases t.len(),
{
    if t.len() == 0 {
        t
    } else if t.len() >= 5 && t.take(5) == "&amp;"@ {
        seq!['&'] + unescape_spec(t.skip(5))
    } else if t.len() >= 4 && t.take(4) == "&lt;"@ {
        seq!['<'] + unescape_spec(t.skip(4))
    } else if t.len() >= 4 && t.take(4) == "&gt;"@ {
        seq!['>'] + unescape_spec(t.skip(4))
    } else if t.len() >= 6 && t.take(6) == "&quot;"@ {
        seq!['"'] + unescape_spec(t.skip(6))
    } else if t.len() >= 5 && t.take(5) == "&#39;"@ {
        seq!['\''] + unescape_spec(t.skip(5))
    } else {
        seq![t[0]] + unescape_spec(t.skip(1))
    }
}

proof fn lemma_escape_front(s: Seq<char>)
    requires
        s.len() > 0,
    ensures
        escape_spec(s) == escape_char(s[0]) + escape_spec(s.drop_first()),
    decreases s.len(),
{
    if s.len() > 1 {
        lemma_escape_front(s.drop_last());
        assert(s.drop_last().drop_first() =~= s.drop_first().drop_last());
        assert(s.drop_first().last() == s.last());
        assert(escape_spec(s.drop_first()) == escape_spec(s.drop_first().drop_last()) + escape_char(s.last()));
    } else {
        assert(s.drop_first() =~= Seq::<char>::empty());
        assert(s.drop_last() =~= Seq::<char>::empty());
    }
}

#[verifier::spinoff_prover]
#[verifier::rlimit(40)]
proof fn lemma_unescape_one(c: char, rest: Seq<char>)
    ensures
        unescape_spec(escape_char(c) + rest) == seq![c] + unescape_spec(rest),
{
    reveal_strlit("&amp;");
    reveal_strlit("&lt;");
    reveal_strlit("&gt;");
    reveal_strlit("&quot;");
    reveal_strlit("&#39;");
    let t = escape_char(c) + rest;
    let e = escape_char(c);
    assert(t.take(e.len() as int) =~= e);
    assert(t.skip(e.len() as int) =~= rest);
    if c != '&' && c != '<' && c != '>' && c != '"' && c != '\'' {
        assert(t[0] == c);
        assert(t.skip(1) =~= rest);
        if t.len() >= 5 {
            assert(t.take(5)[0] == c);
        }
        if t.len() >= 4 {
            assert(t.take(4)[0] == c);
        }
        if t.len() >= 6 {
            assert(t.take(6)[0] == c);
        }
    } else if c == '<' || c == '>' {
        if t.len() >= 5 {
            assert(t.take(5)[1] == t[1]);
        }
        if t.len() >= 6 {
            assert(t.take(6)[1] == t[1]);
        }
    } else if c == '"' {
        if t.len() >= 5 {
            assert(t.take(5)[1] == t[1]);
        }
        assert(t.take(4)[1] == t[1]);
    } else if c == '\'' {
        assert(t.take(4)[1] == t[1]);
        assert(t.take(5)[1] == t[1]);
        assert(t.take(5)[2] == t[2]);
        if t.len() >= 6 {
            assert(t.take(6)[1] == t[1]);
        }
    }
}

/// Escaping loses nothing: reading the escaped text back gives the
/// original.
pub proof fn law_escape_round_trip(s: Seq<char>)
    ensures
        unescape_spec(escape_spec(s)) == s,
    decreases s.len(),
{
    if s.len() > 0 {
        lemma_escape_front(s);
        law_escape_round_trip(s.drop_first());
        lemma_unescape_one(s[0], escape_spec(s.drop_first()));
        assert(seq![s[0]] + s.drop_first() =~= s);
    } else {
        assert(escape_spec(s) =~= Seq::<char>::empty());
    }
}

proof fn lemma_hex_digit_plain(d: int)
    requires
        0 <= d < 16,
    ensures
        (crate::alias::hex_digit(d) as u32) >= 0x30,
        crate::alias::hex_digit(d) != '<' && crate::alias::hex_digit(d) != '>' && crate::alias::hex_digit(d) != '&',
{
    if d < 10 {
        assert(((d + 48) as u32) as char as u32 == (d + 48) as u32);
    } else {
        assert(((d - 10 + 97) as u32) as char as u32 == (d - 10 + 97) as u32);
    }
}

/// The value of a lower-case hex digit.
pub open spec fn hex_val(c: char) -> int {
    if (c as u32) <= 57 {
        (c as u32) - 48
    } else {
        (c as u32) - 87
    }
}

/// Reading a JSON string body back: `\"`, `\\`, `\n`, `\r`, `\t` and
/// `\uXXXX` escapes stand for their characters; any other character stands
/// for itself.
pub open spec fn json_unescape(t: Seq<char>) -> Seq<char>
    decreases t.len(),
{
    if t.len() == 0 {
        t
    } else if t[0] == '\\' && t.len() >= 2 && t[1] == '"' {
        seq!['"'] + json_unescape(t.skip(2))
    } else if t[0] == '\\' && t.len() >= 2 && t[1] == '\\' {
        seq!['\\'] + json_unescape(t.skip(2))
    } else if t[0] == '\\' && t.len() >= 2 && t[1] == 'n' {
        seq!['\n'] + json_unescape(t.skip(2))
    } else if t[0] == '\\' && t.len() >= 2 && t[1] == 'r' {
        seq!['\r'] + json_unescape(t.skip(2))
    } else if t[0] == '\\' && t.len() >= 2 && t[1] == 't' {
        seq!['\t'] + json_unescape(t.skip(2))
    } else if t[0] == '\\' && t.len() >= 6 && t[1] == 'u' {
        let code = hex_val(t[2]) * 4096 + hex_val(t[3]) * 256 + hex_val(t[4]) * 16 + hex_val(t[5]);
        seq![(code as u32) as char] + json_unescape(t.skip(6))
    } else {
        seq![t[0]] + json_unescape(t.skip(1))
    }
}

proof fn lemma_hex_val(d: int)
    requires
        0 <= d < 16,
    ensures
        hex_val(crate::alias::hex_digit(d)) == d,
{
    if d < 10 {
        assert(((d + 48) as u32) as char as u32 == (d + 48) as u32);
    } else {
        assert(((d - 10 + 97) as u32) as char as u32 == (d - 10 + 97) as u32);
    }
}

proof fn lemma_json_front(s: Seq<char>)
    requires
        s.len() > 0,
    ensures
        crate::alias::json_body(s) == crate::alias::json_char(s[0]) + crate::alias::json_body(s.drop_first()),
    decreases s.len(),
{
    if s.len() > 1 {
        lemma_json_front(s.drop_last());
        assert(s.drop_last().drop_first() =~= s.drop_first().drop_last());
        assert(s.drop_first().last() == s.last());
        assert(crate::alias::json_body(s.drop_first()) == crate::alias::json_body(s.drop_first().drop_last())
            + crate::alias::json_char(s.last()));
    } else {
        assert(s.drop_first() =~= Seq::<char>::empty());
        assert(s.drop_last() =~= Seq::<char>::empty());
    }
}

#[verifier::spinoff_prover]
proof fn lemma_json_one(c: char, rest: Seq<char>)
    ensures
        json_unescape(crate::alias::json_char(c) + rest) == seq![c] + json_unescape(rest),
{
    let e = crate::alias::json_char(c);
    let t = e + rest;
    assert(t.skip(e.len() as int) =~= rest);
    assert(forall|i: int| 0 <= i < e.len() ==> #[trigger] t[i] == e[i]);
    if c == '<' {
        vstd::utf8::char_u32_cast(c, 60);
    } else if c == '>' {
        vstd::utf8::char_u32_cast(c, 62);
    } else if c == '&' {
        vstd::utf8::char_u32_cast(c, 38);
    } else if c == '"' || c == '\\' || c == '\n' || c == '\r' || c == '\t' {
    } else if (c as u32) < 0x20 {
        let u = c as u32;
        lemma_hex_val(u as int / 16);
        lemma_hex_val(u as int % 16);
        assert(hex_val('0') == 0);
        vstd::utf8::char_u32_cast(c, u);
        assert((u as int / 16) * 16 + u as int % 16 == u as int);
    } else {
        assert(t[0] == c);
        assert(t.skip(1) =~= rest);
    }
}

/// JSON encoding loses nothing: reading the encoded body back gives the
/// original string.
pub proof fn law_json_round_trip(s: Seq<char>)
    ensures
        json_unescape(crate::alias::json_body(s)) == s,
    decreases s.len(),
{
    if s.len() > 0 {
        lemma_json_front(s);
        law_json_round_trip(s.drop_first());
        lemma_json_one(s[0], crate::alias::json_body(s.drop_first()));
        assert(seq![s[0]] + s.drop_first() =~= s);
    } else {
        assert(crate::alias::json_body(s) =~= Seq::<char>::empty());
    }
}

/// A JSON-encoded string holds no raw `<`, `>`, `&` or control character,
/// so it cannot end a `<script>` element or break the line it stands on.
pub proof fn law_json_body_has_no_raw_markup(s: Seq<char>)
    ensures
        forall|i: int| 0 <= i < crate::alias::json_body(s).len() ==> {
            let c = #[trigger] crate::alias::json_body(s)[i];
            c != '<' && c != '>' && c != '&' && (c as u32) >= 0x20
        },
    decreases s.len(),
{
    if s.len() > 0 {
        law_json_body_has_no_raw_markup(s.drop_last());
        let a = crate::alias::json_body(s.drop_last());
        let c = s.last();
        let b = crate::alias::json_char(c);
        if (c as u32) < 0x20 && !(c == '\n' || c == '\r' || c == '\t') {
            lemma_hex_digit_plain((c as u32) as int / 16);
            lemma_hex_digit_plain((c as u32) as int % 16);
        }
        assert forall|i: int| 0 <= i < (a + b).len() implies {
            let x = #[trigger] (a + b)[i];
            x != '<' && x != '>' && x != '&' && (x as u32) >= 0x20
        } by {
            if i < a.len() {
                assert((a + b)[i] == a[i]);
            } else {
                assert((a + b)[i] == b[i - a.len()]);
            }
        }
        assert(crate::alias::json_body(s) == a + b);
    }
}

// ---------------------------------------------------------------------------
// Excerpts
// ---------------------------------------------------------------------------

proof fn lemma_strip_state_no_open(s: Seq<char>)
    ensures
        forall|i: int| 0 <= i < strip_state(s).0.len() ==> #[trigger] strip_state(s).0[i] != '<',
    decreases s.len(),
{
    if s.len() > 0 {
        lemma_strip_state_no_open(s.drop_last());
        let k = strip_state(s.drop_last()).0;
        assert forall|i: int| 0 <= i < strip_state(s).0.len() implies #[trigger] strip_state(s).0[i] != '<' by {
            if strip_state(s).0 != k {
                assert(strip_state(s).0 == k.push(s.last()));
                if i < k.len() {
                    assert(strip_state(s).0[i] == k[i]);
                }
            }
        }
    }
}

/// Text with its tags stripped holds no `<`: no tag survives into an excerpt.
pub proof fn law_stripped_text_has_no_tags(s: Seq<char>)
    ensures
        forall|i: int| 0 <= i < strip_tags_spec(s).len() ==> #[trigger] strip_tags_spec(s)[i] != '<',
{
    lemma_strip_state_no_open(s);
    assert(strip_tags_spec(s) == strip_state(s).0) by {
        if s.len() > 0 {
            let (kept, in_tag) = strip_state(s.drop_last());
            assert(strip_state(s).0 == if in_tag || s.last() == '<' { kept } else { kept.push(s.last()) });
        }
    }
}

// ---------------------------------------------------------------------------
// Writing outputs
// ---------------------------------------------------------------------------

/// Some earlier position with the same path as `i` is the first one.
proof fn lemma_first_same(ps: Seq<Seq<char>>, i: int, k: int)
    requires
        0 <= k < i <= ps.len() - 1,
        ps[k] == ps[i],
    ensures
        exists|m: int| 0 <= m <= k && ps[m] == ps[i] && forall|x: int| 0 <= x < m ==> #[trigger] ps[x] != ps[i],
    decreases k,
{
    if exists|x: int| 0 <= x < k && ps[x] == ps[i] {
        let x = choose|x: int| 0 <= x < k && ps[x] == ps[i];
        lemma_first_same(ps, i, x);
    } else {
        assert(forall|x: int| 0 <= x < k ==> #[trigger] ps[x] != ps[i]);
    }
}

/// Redirect stubs are written after every page, so a stub at a page's path
/// is never written: the path's first claim is a page.
pub proof fn law_stub_never_replaces_page(pages: Seq<Output>, stubs: Seq<Output>, j: int)
    requires
        0 <= j < stubs.len(),
        exists|k: int| 0 <= k < pages.len() && (#[trigger] pages[k]).output_path@ == stubs[j].output_path@,
    ensures
        first_claim(paths_of(pages + stubs), pages.len() + j) matches Some(m) && 0 <= m < pages.len(),
{
    let all = pages + stubs;
    let ps = paths_of(all);
    let i = pages.len() + j;
    let k = choose|k: int| 0 <= k < pages.len() && (#[trigger] pages[k]).output_path@ == stubs[j].output_path@;
    assert(all[k] == pages[k]);
    assert(all[i] == stubs[j]);
    assert(ps[k] == ps[i]);
    lemma_first_same(ps, i, k);
    let m = first_claim(ps, i).unwrap();
    assert(0 <= m < i && ps[m] == ps[i] && forall|x: int| 0 <= x < m ==> ps[x] != ps[i]);
    if m > k {
        assert(ps[k] != ps[i]);
    }
}

// ---------------------------------------------------------------------------
// URLs
// ---------------------------------------------------------------------------

/// Every URL is rooted at `/`, and a page written as `index.html` is linked
/// by its directory URL, ending in `/`.
pub proof fn law_urls_rooted_and_pretty(p: Seq<char>)
    ensures
        to_url_spec(p).len() > 0,
        to_url_spec(p)[0] == '/',
        ends_with(p, "index.html"@) ==> to_url_spec(p).last() == '/',
{
    reveal_strlit("/");
    reveal_strlit("index.html");
    if ends_with(p, "index.html"@) {
        let t = trim_end_char(p.take(p.len() - 10), '/');
        if t.len() > 0 {
            assert(("/"@ + t + "/"@)[0] == '/');
            assert(("/"@ + t + "/"@).last() == '/');
        }
    } else {
        assert(("/"@ + p)[0] == '/');
    }
}

// ---------------------------------------------------------------------------
// What the operations are for
// ---------------------------------------------------------------------------

/// Listings order by the instants themselves: under `order_by: date` or
/// `order_by: updated`, a doc whose instant is strictly earlier comes first
/// ascending and last descending.
pub proof fn law_time_keys_follow_instants(o: crate::order::Order, a: Doc, b: Doc)
    requires
        o.key == crate::query::OrderKey::Date || o.key == crate::query::OrderKey::Updated,
        ({
            let (x, y) = if o.key == crate::query::OrderKey::Date { (a.date, b.date) } else { (a.updated, b.updated) };
            x.secs < y.secs || (x.secs == y.secs && x.nanos < y.nanos)
        }),
    ensures
        o.dir == crate::query::SortDir::Asc ==> crate::order::before(o, a, b) && !crate::order::before(o, b, a),
        o.dir == crate::query::SortDir::Desc ==> crate::order::before(o, b, a) && !crate::order::before(o, a, b),
{
    crate::order::lemma_before(o, a, b, a);
}

proof fn lemma_term_text_first(ds: Seq<Doc>, ps: Seq<usize>, tax: Seq<char>, slug: Seq<char>, k: int)
    requires
        0 <= k < ps.len(),
        lookup(bucket_in(ds[ps[k] as int], tax), slug) is Some,
        forall|m: int| 0 <= m < k ==> lookup(bucket_in(ds[#[trigger] ps[m] as int], tax), slug) is None,
    ensures
        crate::archive::term_text(ds, ps, tax, slug) == Some(lookup(bucket_in(ds[ps[k] as int], tax), slug)->0@),
    decreases k,
{
    if k > 0 {
        let t = ps.drop_first();
        assert forall|m: int| 0 <= m < k - 1 implies lookup(bucket_in(ds[#[trigger] t[m] as int], tax), slug) is None by {
            assert(t[m] == ps[m + 1]);
        }
        assert(t[k - 1] == ps[k]);
        lemma_term_text_first(ds, t, tax, slug, k - 1);
        assert(lookup(bucket_in(ds[ps[0] as int], tax), slug) is None);
    }
}

proof fn lemma_tax_runs_text(docs: Seq<(String, Doc)>, tx: Seq<(String, Vec<String>)>, q: Option<crate::query::QueryView>, tax: Seq<char>)
    ensures
        forall|i: int| 0 <= i < crate::archive::tax_runs(docs, tx, q, tax).len() ==> (#[trigger] crate::archive::tax_runs(
            docs,
            tx,
            q,
            tax,
        )[i]).1 == match crate::archive::term_text(
            docs_of(docs),
            crate::archive::tax_runs(docs, tx, q, tax)[i].2,
            tax,
            crate::archive::tax_runs(docs, tx, q, tax)[i].0,
        ) {
            Some(t) => t,
            None => crate::archive::tax_runs(docs, tx, q, tax)[i].0,
        },
    decreases tx.len(),
{
    if tx.len() > 0 {
        lemma_tax_runs_text(docs, tx.drop_last(), q, tax);
        let r = crate::archive::tax_runs(docs, tx.drop_last(), q, tax);
        let all = crate::archive::tax_runs(docs, tx, q, tax);
        assert forall|i: int| 0 <= i < all.len() implies (#[trigger] all[i]).1 == match crate::archive::term_text(
            docs_of(docs),
            all[i].2,
            tax,
            all[i].0,
        ) {
            Some(t) => t,
            None => all[i].0,
        } by {
            if i < r.len() {
                assert(all[i] == r[i]);
            }
        }
    }
}

/// A taxonomy archive page names its term by the text the docs wrote, not
/// by its slug: the run's display text is the text stored under the slug by
/// the first of its docs that carries the term.
pub proof fn law_taxonomy_run_text_is_written_text(
    docs: Seq<(String, Doc)>,
    tx: Seq<(String, Vec<String>)>,
    q: Option<crate::query::QueryView>,
    tax: Seq<char>,
    i: int,
    k: int,
)
    requires
        0 <= i < crate::archive::tax_runs(docs, tx, q, tax).len(),
        0 <= k < crate::archive::tax_runs(docs, tx, q, tax)[i].2.len(),
        lookup(
            bucket_in(docs_of(docs)[crate::archive::tax_runs(docs, tx, q, tax)[i].2[k] as int], tax),
            crate::archive::tax_runs(docs, tx, q, tax)[i].0,
        ) is Some,
        forall|m: int|
            0 <= m < k ==> lookup(
                bucket_in(docs_of(docs)[#[trigger] crate::archive::tax_runs(docs, tx, q, tax)[i].2[m] as int], tax),
                crate::archive::tax_runs(docs, tx, q, tax)[i].0,
            ) is None,
    ensures
        crate::archive::tax_runs(docs, tx, q, tax)[i].1 == lookup(
            bucket_in(docs_of(docs)[crate::archive::tax_runs(docs, tx, q, tax)[i].2[k] as int], tax),
            crate::archive::tax_runs(docs, tx, q, tax)[i].0,
        )->0@,
{
    let run = crate::archive::tax_runs(docs, tx, q, tax)[i];
    lemma_tax_runs_text(docs, tx, q, tax);
    lemma_term_text_first(docs_of(docs), run.2, tax, run.0, k);
}

proof fn lemma_close_from_first(s: Seq<char>, i: int)
    requires
        0 <= i,
    ensures
        crate::frontmatter::close_from(s, i) matches Some(k) ==> forall|j: int| i <= j < k ==> !crate::frontmatter::closes_at(s, j),
    decreases s.len() - i,
{
    if i < s.len() && !crate::frontmatter::closes_at(s, i) {
        lemma_close_from_first(s, i + 1);
    }
}

/// Frontmatter closes at the first `---` line after the opening one: the
/// YAML text it yields never holds a line that is exactly `---`, so a `---`
/// thematic break in the body stays in the body.
pub proof fn law_frontmatter_closes_at_first_delimiter(s: Seq<char>)
    ensures
        split_spec(s) matches Some((y, b)) ==> {
            let t = seq!['\n'] + y;
            forall|m: int|
                0 <= m && m + 4 <= t.len() && #[trigger] t[m] == '\n' && t[m + 1] == '-' && t[m + 2] == '-' && t[m + 3] == '-'
                    ==> m + 4 < t.len() && t[m + 4] != '\n'
        },
{
    if let Some((y, b)) = split_spec(s) {
        let k = crate::frontmatter::close_from(s, 3)->0;
        crate::frontmatter::lemma_close_from(s, 3);
        lemma_close_from_first(s, 3);
        let t = seq!['\n'] + y;
        if k >= 4 {
            assert(t =~= s.subrange(3, k));
        } else {
            assert(t.len() == 1);
        }
        assert forall|m: int|
            0 <= m && m + 4 <= t.len() && #[trigger] t[m] == '\n' && t[m + 1] == '-' && t[m + 2] == '-' && t[m + 3] == '-'
                implies m + 4 < t.len() && t[m + 4] != '\n' by {
            assert(k >= 4);
            let j = 3 + m;
            assert(s[j] == t[m] && s[j + 1] == t[m + 1] && s[j + 2] == t[m + 2] && s[j + 3] == t[m + 3]);
            assert(crate::text::occurs_at(s, seq!['\n', '-', '-', '-'], j)) by {
                assert(s.subrange(j, j + 4) =~= seq!['\n', '-', '-', '-']);
            }
            if m + 4 == t.len() {
                assert(j + 4 == k);
                assert(s[k] == '\n') by {
                    assert(crate::text::occurs_at(s, seq!['\n', '-', '-', '-'], k));
                    assert(s.subrange(k, k + 4)[0] == s[k]);
                }
                assert(crate::frontmatter::closes_at(s, j));
            } else if t[m + 4] == '\n' {
                assert(s[j + 4] == t[m + 4]);
                assert(crate::frontmatter::closes_at(s, j));
            }
        }
    }
}

/// For the `links` namespace of related pages, once the link graph is built,
/// every stored doc that links to the post, and every stored doc the post
/// links to, is a candidate (unless it is the post itself or omitted).
pub proof fn law_related_links_both_ways(
    ix: crate::doc_index::DocIndex,
    post: Seq<char>,
    namespaces: Seq<Seq<char>>,
    omit: Seq<Seq<char>>,
    p: int,
)
    requires
        ix.wf(),
        forall|u: Seq<char>| #[trigger] ids_are(lookup(ix.backlinks@, u), linkers(ix.docs@, u, ix.docs@.len() as int)),
        has_key(ix.docs@, post),
        namespaces.contains(crate::related::LINKS@),
        0 <= p < ix.docs@.len(),
        ix.docs@[p].0@ != post,
        !omit.contains(ix.docs@[p].0@),
    ensures
        links_to(ix.docs@[p].1, post) ==> crate::related::related_candidate(ix, post, namespaces, omit, ix.docs@[p].0@),
        (lookup(ix.docs@, post) matches Some(d) && links_to(d, ix.docs@[p].0@)) ==> crate::related::related_candidate(
            ix,
            post,
            namespaces,
            omit,
            ix.docs@[p].0@,
        ),
{
    let id = ix.docs@[p].0@;
    lemma_lookup_at(ix.docs@, p);
    let d = lookup(ix.docs@, post)->0;
    let ni = choose|i: int| 0 <= i < namespaces.len() && namespaces[i] == crate::related::LINKS@;
    if links_to(ix.docs@[p].1, post) {
        lemma_linkers_contains(ix.docs@, post, ix.docs@.len() as int);
        assert(linkers(ix.docs@, post, ix.docs@.len() as int).contains(id));
        assert(ids_are(lookup(ix.backlinks@, post), linkers(ix.docs@, post, ix.docs@.len() as int)));
        assert(crate::doc_index::recorded_ids(ix.backlinks@, post).contains(id));
        assert(crate::related::shares(ix, d, post, namespaces[ni], id));
    }
    if lookup(ix.docs@, post) matches Some(dd) && links_to(dd, id) {
        let j = choose|j: int| 0 <= j < d.links@.len() && (#[trigger] d.links@[j])@ == id;
        assert(crate::doc_index::strs(d.links@)[j] == id);
        assert(crate::doc_index::strs(d.links@).contains(id));
        assert(crate::related::shares(ix, d, post, namespaces[ni], id));
    }
}

proof fn lemma_last_ci(h: Seq<u8>, n: Seq<u8>, i: int)
    requires
        crate::livereload::ci_at(h, n, i),
    ensures
        exists|m: int| crate::livereload::ci_at(h, n, m) && forall|j: int| m < j ==> !crate::livereload::ci_at(h, n, j),
    decreases h.len() - i,
{
    if exists|j: int| i < j && crate::livereload::ci_at(h, n, j) {
        let j = choose|j: int| i < j && crate::livereload::ci_at(h, n, j);
        lemma_last_ci(h, n, j);
    } else {
        assert(forall|j: int| i < j ==> !crate::livereload::ci_at(h, n, j));
    }
}

/// Every served page gets the reload script exactly once: the result is the
/// page with the tag inserted at one place, right before the last
/// `</body>` (in any case), or at the end when there is none.
pub proof fn law_livereload_tag_inserted(html: Seq<u8>) -> (p: int)
    ensures
        ({
            let tag = crate::livereload::LIVERELOAD_TAG@.map_values(|c: char| c as u8);
            let n = "</body>"@.map_values(|c: char| c as u8);
            &&& 0 <= p <= html.len()
            &&& crate::livereload::inject_spec(html) == html.take(p) + tag + html.skip(p)
            &&& (exists|q: int| crate::livereload::ci_at(html, n, q)) ==> crate::livereload::ci_at(html, n, p) && forall|q: int|
                crate::livereload::ci_at(html, n, q) ==> q <= p
            &&& !(exists|q: int| crate::livereload::ci_at(html, n, q)) ==> p == html.len()
        }),
{
    reveal_strlit("</body>");
    let tag = crate::livereload::LIVERELOAD_TAG@.map_values(|c: char| c as u8);
    let n = "</body>"@.map_values(|c: char| c as u8);
    assert(n.len() == 7);
    if exists|q: int| crate::livereload::ci_at(html, n, q) {
        let q = choose|q: int| crate::livereload::ci_at(html, n, q);
        lemma_last_ci(html, n, q);
    }
    match crate::livereload::find_last_ci_spec(html, n) {
        Some(p) => {
            assert(crate::livereload::ci_at(html, n, p));
            assert forall|q: int| crate::livereload::ci_at(html, n, q) implies q <= p by {
                if q > p {
                    assert(!crate::livereload::ci_at(html, n, q));
                }
            }
            assert(crate::livereload::inject_spec(html) == html.take(p) + tag + html.skip(p));
            assert(0 <= p && p + n.len() <= html.len());
            assert(exists|q: int| crate::livereload::ci_at(html, n, q));
            p
        },
        None => {
            assert(!(exists|q: int| crate::livereload::ci_at(html, n, q)));
            assert(html.take(html.len() as int) =~= html);
            assert(html.skip(html.len() as int) =~= Seq::<u8>::empty());
            assert(crate::livereload::inject_spec(html) =~= html.take(html.len() as int) + tag + html.skip(
                html.len() as int,
            ));
            html.len() as int
        },
    }
}

} // verus!
