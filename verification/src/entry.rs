//! The record the scanner produces and the cache stores: one discovered
//! executable file.

use vstd::prelude::*;

verus! {

/// A discovered executable file: its base name (extension included) and its
/// absolute filesystem path. Duplicate names across directories stay as
/// separate entries; nothing is deduplicated or sorted.
pub struct ExecutableEntry {
    pub name: String,
    pub path: String,
}

/// The mathematical value of an entry: both fields as character sequences.
#[verifier::ext_equal]
pub struct EntryModel {
    pub name: Seq<char>,
    pub path: Seq<char>,
}

impl View for ExecutableEntry {
    type V = EntryModel;

    open spec fn view(&self) -> EntryModel {
        EntryModel { name: self.name@, path: self.path@ }
    }
}

/// The models of a sequence of entries, in order.
pub open spec fn entries_view(s: Seq<ExecutableEntry>) -> Seq<EntryModel> {
    s.map_values(|e: ExecutableEntry| e@)
}

} // verus!
