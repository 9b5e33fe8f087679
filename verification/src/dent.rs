//! The entry that a walk yields.
use vstd::prelude::*;
use crate::dir::FlatDirEntry;
use crate::fs::{FileType, Metadata};
use crate::rawdent::RawDirEntry;
use crate::storage::StorageExt;
use crate::wd::Depth;

verus! {

/// A directory entry as a walk yields it: the raw entry, what the walk
/// found out about it, and the depth at which it was met.
///
/// With `follow_links` all answers but `path` are about the target of a
/// symbolic link; without it they are about the link.
#[derive(Debug, PartialEq, Eq)]
pub struct DirEntry {
    pub raw: RawDirEntry,
    /// The entry is a directory that the walk goes into.
    pub is_dir: bool,
    /// The entry is a link back to the directory with this index on the
    /// path from the root.
    pub loop_link: Option<usize>,
    /// The depth of the entry; the root has depth 0.
    pub depth: Depth,
}

impl Clone for DirEntry {
    fn clone(&self) -> (r: Self)
        ensures
            r == *self,
    {
        DirEntry {
            raw: self.raw.clone(),
            is_dir: self.is_dir,
            loop_link: self.loop_link,
            depth: self.depth,
        }
    }
}

impl DirEntry {
    /// The entry that stands for `flat` at `depth`.
    pub open spec fn spec_from_flat(flat: &FlatDirEntry, depth: Depth) -> DirEntry {
        DirEntry { raw: flat.raw, is_dir: flat.is_dir, loop_link: flat.loop_link, depth }
    }

    /// The path of the entry: the root as it was given joined with the
    /// names down to the entry. Never the target of a link.
    pub fn path(&self) -> (r: &String)
        ensures
            *r == self.raw.path,
    {
        self.raw.path()
    }

    /// Gives up the entry for its path.
    pub fn into_path(self) -> (r: String)
        ensures
            r == self.raw.path,
    {
        self.raw.into_path()
    }

    /// Was the entry made from a symbolic link, followed or not?
    pub fn path_is_symlink(&self) -> (r: bool)
        ensures
            r == (self.raw.metadata.file_type is Symlink || self.raw.follow_link),
    {
        self.raw.is_symlink() || self.raw.follow_link()
    }

    /// The metadata captured when the entry was read.
    pub fn metadata(&self) -> (r: Metadata)
        ensures
            r == self.raw.metadata,
    {
        self.raw.metadata()
    }

    /// The kind of the entry.
    pub fn file_type(&self) -> (r: FileType)
        ensures
            r == self.raw.metadata.file_type,
    {
        self.raw.file_type()
    }

    /// The last component of the path.
    pub fn file_name<E: StorageExt>(&self, fs: &E) -> (r: String)
        ensures
            r@ == fs.spec_file_name(self.raw.path@),
    {
        self.raw.file_name(fs)
    }

    /// The depth at which the entry was met; the root has depth 0.
    pub fn depth(&self) -> (r: Depth)
        ensures
            r == self.depth,
    {
        self.depth
    }

    /// Is the entry a directory that the walk goes into?
    pub fn is_dir(&self) -> (r: bool)
        ensures
            r == self.is_dir,
    {
        self.is_dir
    }

    /// The index, on the path from the root, of the directory that this
    /// link leads back to.
    pub fn loop_link(&self) -> (r: Option<usize>)
        ensures
            r == self.loop_link,
    {
        self.loop_link
    }

    /// Makes the entry that stands for `flat` at `depth`.
    pub fn from_flat(flat: &FlatDirEntry, depth: Depth) -> (r: Self)
        ensures
            r == Self::spec_from_flat(flat, depth),
    {
        DirEntry { raw: flat.raw.clone(), is_dir: flat.is_dir, loop_link: flat.loop_link, depth }
    }

    /// Forgets the depth.
    pub fn into_flat(self) -> (r: FlatDirEntry)
        ensures
            r == (FlatDirEntry { raw: self.raw, is_dir: self.is_dir, loop_link: self.loop_link }),
    {
        FlatDirEntry { raw: self.raw, is_dir: self.is_dir, loop_link: self.loop_link }
    }
}

/// What an entry knows on storages that number their objects.
pub trait DirEntryExt {
    /// What `ino` answers.
    spec fn spec_ino(&self) -> u64;

    /// The inode number of the entry.
    fn ino(&self) -> (r: u64)
        ensures
            r == self.spec_ino(),
    ;
}

impl DirEntryExt for DirEntry {
    open spec fn spec_ino(&self) -> u64 {
        self.raw.metadata.ino
    }

    fn ino(&self) -> (r: u64) {
        self.raw.metadata.ino
    }
}

} // verus!
