//! A simple doc store: docs in insertion order, with a by-path index that
//! points each `id_path` at the doc inserted last under it.

use vstd::prelude::*;
use crate::doc::Doc;
use crate::sorted::{get, keys_sorted, lookup, upsert};

verus! {

/// The index entry for `k`, if any, points at a doc with that `id_path`.
pub open spec fn points_ok(by_path: Seq<(String, usize)>, docs: Seq<Doc>, k: Seq<char>) -> bool {
    lookup(by_path, k) matches Some(i) ==> i < docs.len() && docs[i as int].id_path@ == k
}

/// Docs in insertion order, and each `id_path`'s position among them.
pub struct Index {
    pub docs: Vec<Doc>,
    pub by_path: Vec<(String, usize)>,
}

impl Index {
    /// The by-path index is sorted and every entry points at a doc with
    /// that `id_path`.
    pub open spec fn wf(&self) -> bool {
        &&& keys_sorted(self.by_path@)
        &&& forall|k: Seq<char>| #[trigger] points_ok(self.by_path@, self.docs@, k)
    }

    /// The doc `get` answers for `k`: the one the index points at.
    pub open spec fn doc_at(&self, k: Seq<char>) -> Option<Doc> {
        match lookup(self.by_path@, k) {
            Some(i) => Some(self.docs@[i as int]),
            None => None,
        }
    }

    /// An empty store.
    pub fn new() -> (r: Index)
        ensures
            r.wf(),
            r.docs@.len() == 0,
            r.by_path@.len() == 0,
    {
        Index { docs: Vec::new(), by_path: Vec::new() }
    }

    /// Append `doc` and point its `id_path` at it; an earlier doc with the
    /// same `id_path` stays in `docs` but is no longer found by path.
    pub fn insert(&mut self, doc: Doc)
        requires
            old(self).wf(),
            old(self).docs@.len() < usize::MAX,
        ensures
            final(self).wf(),
            final(self).docs@ == old(self).docs@.push(doc),
            final(self).doc_at(doc.id_path@) == Some(doc),
            forall|k: Seq<char>| k != doc.id_path@ ==> #[trigger] final(self).doc_at(k) == old(self).doc_at(k),
    {
        let idx = self.docs.len();
        let key = doc.id_path.clone();
        let ghost gd = doc;
        let ghost old_docs = self.docs@;
        self.docs.push(doc);
        upsert(&mut self.by_path, key, idx);
        proof {
            assert forall|k: Seq<char>| #[trigger] points_ok(self.by_path@, self.docs@, k) by {
                if k != gd.id_path@ {
                    assert(points_ok(old(self).by_path@, old_docs, k));
                    if let Some(i) = lookup(self.by_path@, k) {
                        assert(self.docs@[i as int] == old_docs[i as int]);
                    }
                }
            }
            assert forall|k: Seq<char>| k != gd.id_path@ implies #[trigger] self.doc_at(k) == old(self).doc_at(k) by {
                assert(points_ok(old(self).by_path@, old_docs, k));
                if let Some(i) = lookup(self.by_path@, k) {
                    assert(self.docs@[i as int] == old_docs[i as int]);
                }
            }
        }
    }

    /// The doc last inserted under `id_path`.
    pub fn get(&self, id_path: &str) -> (r: Option<&Doc>)
        requires
            self.wf(),
        ensures
            match r {
                Some(d) => self.doc_at(id_path@) == Some(*d),
                None => self.doc_at(id_path@) is None,
            },
    {
        match get(&self.by_path, id_path) {
            Some(i) => {
                proof { assert(points_ok(self.by_path@, self.docs@, id_path@)); }
                Some(&self.docs[*i])
            },
            None => None,
        }
    }
}

impl Default for Index {
    /// An empty store.
    fn default() -> (r: Index)
        ensures
            r.wf(),
            r.docs@.len() == 0,
            r.by_path@.len() == 0,
    {
        Index::new()
    }
}

} // verus!
