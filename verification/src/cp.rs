//! Content processors: what turns an entry of the walk into the item that
//! the caller sees.
use vstd::prelude::*;
use crate::dent::DirEntry;
use crate::dir::FlatDirEntry;
use crate::wd::Depth;

verus! {

/// Turns entries into the caller's items.
///
/// A walk calls `process_direntry` for each entry that it is about to
/// yield, and for each directory that it has opened, to go with the mark of
/// entering it; `None` suppresses the entry. The answer depends on the entry
/// and its depth alone (`spec_process`).
pub trait ContentProcessor {
    /// The caller's item.
    type Item;

    /// What `process_direntry` answers.
    spec fn spec_process(&self, flat: &FlatDirEntry, depth: Depth) -> Option<Self::Item>;

    /// What `is_dir` answers.
    spec fn spec_is_dir(item: &Self::Item) -> bool;

    /// Makes the caller's item of an entry, or suppresses it.
    fn process_direntry(&self, flat: &FlatDirEntry, depth: Depth) -> (r: Option<Self::Item>)
        ensures
            r == self.spec_process(flat, depth),
    ;

    /// Does the item stand for a directory that the walk goes into?
    fn is_dir(item: &Self::Item) -> (r: bool)
        ensures
            r == Self::spec_is_dir(item),
    ;

    /// A collection without items.
    fn empty_collection() -> (r: Vec<Self::Item>)
        ensures
            r@.len() == 0,
    ;
}

/// The processor that yields every entry as a [`DirEntry`].
#[derive(Clone, Copy, Debug, Default)]
pub struct DirEntryContentProcessor {}

impl ContentProcessor for DirEntryContentProcessor {
    type Item = DirEntry;

    open spec fn spec_process(&self, flat: &FlatDirEntry, depth: Depth) -> Option<DirEntry> {
        Some(DirEntry::spec_from_flat(flat, depth))
    }

    open spec fn spec_is_dir(item: &DirEntry) -> bool {
        item.is_dir
    }

    fn process_direntry(&self, flat: &FlatDirEntry, depth: Depth) -> (r: Option<DirEntry>) {
        Some(DirEntry::from_flat(flat, depth))
    }

    fn is_dir(item: &DirEntry) -> (r: bool) {
        item.is_dir()
    }

    fn empty_collection() -> (r: Vec<DirEntry>) {
        Vec::new()
    }
}

} // verus!
