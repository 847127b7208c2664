//! The entries that the store hands out and the projections consume.

use vstd::prelude::*;

verus! {

/// One stored pair of a key and its value.
#[derive(Debug, Clone)]
pub struct SkateEntry {
    pub key: String,
    pub value: String,
}

impl View for SkateEntry {
    type V = (Seq<char>, Seq<char>);

    open spec fn view(&self) -> (Seq<char>, Seq<char>) {
        (self.key@, self.value@)
    }
}

/// The keys and values of a sequence of entries, as plain character sequences.
pub open spec fn entry_views(entries: Seq<SkateEntry>) -> Seq<(Seq<char>, Seq<char>)> {
    Seq::new(entries.len(), |i: int| entries[i]@)
}

} // verus!
