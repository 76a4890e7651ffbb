//! Options for listing the docs that link to a doc.

use vstd::prelude::*;
use crate::query::{OrderKey, SortDir};

verus! {

/// How to order, filter and cap a backlink listing.
pub struct Backlinks {
    pub order_by: OrderKey,
    pub sort: SortDir,
    pub omit: Vec<String>,
    pub limit: Option<usize>,
}

impl Backlinks {
    /// Newest first, nothing omitted, no limit.
    pub fn default_options() -> (r: Backlinks)
        ensures
            r.order_by == OrderKey::Date,
            r.sort == SortDir::Desc,
            r.omit@.len() == 0,
            r.limit is None,
    {
        Backlinks { order_by: OrderKey::Date, sort: SortDir::Desc, omit: Vec::new(), limit: None }
    }
}

} // verus!
