//! Small shared vocabulary: depths, content filters and orders, positions.
use vstd::prelude::*;

verus! {

/// Distance of an entry from the root of the walk; the root itself is at 0.
pub type Depth = usize;

/// Number of the device (file system) that holds an entry.
pub type DeviceNum = u64;

/// Wraps a value into `Some`.
pub trait IntoSome<T> {
    fn into_some(self) -> (r: Option<T>)
        ensures
            r.is_some(),
    ;
}

impl<T> IntoSome<T> for T {
    fn into_some(self) -> (r: Option<T>)
        ensures
            r == Some(self),
    {
        Some(self)
    }
}

/// Wraps a value into `Ok`.
pub trait IntoOk<T, E> {
    fn into_ok(self) -> Result<T, E>;
}

impl<T, E> IntoOk<T, E> for T {
    fn into_ok(self) -> Result<T, E>
        returns
            Ok::<T, E>(self),
    {
        Ok(self)
    }
}

/// Wraps an error into `Err`.
pub trait IntoErr<T, E> {
    fn into_err(self) -> Result<T, E>;
}

impl<T, E> IntoErr<T, E> for E {
    fn into_err(self) -> Result<T, E>
        returns
            Err::<T, E>(self),
    {
        Err(self)
    }
}

/// Which entries of a directory are yielded.
///
/// A directory that the filter hides is still walked: only its own entry is
/// withheld, never its content.
#[derive(Clone, Copy, Debug, PartialEq, Eq, Structural)]
pub enum ContentFilter {
    /// Everything is yielded.
    NoFilter,
    /// Only entries that are not directories are yielded.
    FilesOnly,
    /// Only directories are yielded.
    DirsOnly,
    /// No entry is yielded; the walk still reports entering and leaving.
    SkipAll,
}

/// In which order the entries of one directory are visited.
#[derive(Clone, Copy, Debug, PartialEq, Eq, Structural)]
pub enum ContentOrder {
    /// As the storage lists them (or as the sorter arranges them).
    Unordered,
    /// Everything that is not a directory first, then the directories.
    FilesFirst,
    /// Directories (each with its content) first, then the rest.
    DirsFirst,
}

/// One step of a walk.
#[derive(Debug, PartialEq, Eq)]
pub enum Position<BC, EN, ER> {
    /// The walk is about to list the content of a directory.
    BeforeContent(BC),
    /// An entry.
    Entry(EN),
    /// An error met in place of an entry, or on opening a directory.
    Error(ER),
    /// The content of the current directory is exhausted.
    AfterContent,
}

} // verus!
