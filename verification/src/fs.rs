//! Plain values that describe a file system object.
use vstd::prelude::*;

verus! {

/// The kind of a file system object.
#[derive(Clone, Copy, Debug, PartialEq, Eq, Structural)]
pub enum FileType {
    Dir,
    File,
    Symlink,
    Other,
}

impl FileType {
    /// Is it a directory?
    pub fn is_dir(&self) -> (r: bool)
        ensures
            r == (*self is Dir),
    {
        match self {
            FileType::Dir => true,
            _ => false,
        }
    }

    /// Is it a regular file?
    pub fn is_file(&self) -> (r: bool)
        ensures
            r == (*self is File),
    {
        match self {
            FileType::File => true,
            _ => false,
        }
    }

    /// Is it a symbolic link?
    pub fn is_symlink(&self) -> (r: bool)
        ensures
            r == (*self is Symlink),
    {
        match self {
            FileType::Symlink => true,
            _ => false,
        }
    }
}

/// What a storage reports of one object: captured once, never refreshed.
#[derive(Clone, Copy, Debug, PartialEq, Eq, Structural)]
pub struct Metadata {
    /// The kind of the object.
    pub file_type: FileType,
    /// Its inode number, or 0 where the storage has none.
    pub ino: u64,
    /// Its size in bytes.
    pub len: u64,
}

impl Metadata {
    /// The kind of the object.
    pub fn file_type(&self) -> (r: FileType)
        ensures
            r == self.file_type,
    {
        self.file_type
    }

    /// Is it a directory?
    pub fn is_dir(&self) -> (r: bool)
        ensures
            r == (self.file_type is Dir),
    {
        self.file_type.is_dir()
    }

    /// Is it a symbolic link?
    pub fn is_symlink(&self) -> (r: bool)
        ensures
            r == (self.file_type is Symlink),
    {
        self.file_type.is_symlink()
    }
}

/// Identifies the object behind a path: two paths lead to the same
/// directory exactly if their handles are equal.
#[derive(Clone, Copy, Debug, PartialEq, Eq, Structural)]
pub struct SameFileHandle {
    pub dev: u64,
    pub ino: u64,
}

} // verus!
