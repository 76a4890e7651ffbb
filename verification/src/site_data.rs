//! The `data/` directory: each top-level `.yaml`/`.yml` file is surfaced to
//! templates under its file stem.

use vstd::prelude::*;
use crate::paths::{extension, file_stem, file_stem_span, has_extension};
use crate::text::{chars_of, string_of_range};

verus! {

/// The key a data file is surfaced under: its stem, for a `.yaml` or `.yml`
/// file; none for any other file.
pub open spec fn data_key_spec(file_name: Seq<char>) -> Option<Seq<char>> {
    if extension(file_name) == Some("yaml"@) || extension(file_name) == Some("yml"@) {
        file_stem(file_name)
    } else {
        None
    }
}

/// The key of the data file named `file_name`, if it is one.
pub fn data_key(file_name: &str) -> (r: Option<String>)
    ensures
        match r {
            Some(k) => data_key_spec(file_name@) == Some(k@),
            None => data_key_spec(file_name@) is None,
        },
{
    let cs = chars_of(file_name);
    if !(has_extension(&cs, "yaml") || has_extension(&cs, "yml")) {
        return None;
    }
    match file_stem_span(&cs) {
        Some((a, b)) => Some(string_of_range(&cs, a, b)),
        None => None,
    }
}

} // verus!
