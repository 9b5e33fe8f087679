//! Recursive directory traversal over an abstract storage backend.
//!
//! A [`WalkDir`] builder configures a traversal and turns into a
//! [`WalkDirIterator`], which reports the tree one [`Position`] at a time:
//! entering a directory, an entry, an error, leaving a directory. The
//! iterator keeps one [`DirState`] per open directory on an explicit stack,
//! never holds more than `max_open` read streams open, and detects symbolic
//! links that lead back to a directory on the current path.
//!
//! What the iterator yields is stated against a mathematical description of
//! the whole walk (module `trace`): every pull returns the head of the
//! sequence still to come and leaves its tail.
//!
//! The modules, from the ground up:
//! - `wd`, `fs`, `error`: the vocabulary: positions, file types, errors;
//! - `storage`: the storage that is walked, as one trait; `memfs`: a
//!   storage in memory;
//! - `rawdent`: one object of the storage, and the unread rest of a
//!   directory;
//! - `classify`: following links, finding loops, staying on one device;
//! - `sort`: sorting the records of a directory;
//! - `dir`: the records of one directory and the state that goes over
//!   them;
//! - `cp`, `dent`: the items that a walk yields;
//! - `trace`: what a walk yields, as a sequence;
//! - `walk`: the iterator; `iter`: iterators that leave steps out;
//! - `opts`: the options and the builder;
//! - `laws`: what holds of every walk.
pub mod classify;
pub mod cp;
pub mod dent;
pub mod dir;
pub mod error;
pub mod fs;
pub mod iter;
pub mod laws;
pub mod memfs;
pub mod opts;
pub mod rawdent;
pub mod sort;
pub mod storage;
pub mod trace;
pub mod walk;
pub mod wd;

pub use crate::classify::{Ancestor, Classifier, Cx};
pub use crate::cp::{ContentProcessor, DirEntryContentProcessor};
pub use crate::dent::{DirEntry, DirEntryExt};
pub use crate::dir::{
    DirContent, DirEntryRecord, DirPass, DirPosition, DirState, ErrorInnerRef, FlatDirEntry,
    FlatDirEntryRef,
};
pub use crate::error::{Error, ErrorInner, IoError, IoErrorKind};
pub use crate::fs::{FileType, Metadata, SameFileHandle};
pub use crate::iter::{
    ClassicFilterEntry, ClassicIter, ClassicWalkDirIter, FilterEntry, WalkDirIter,
};
pub use crate::memfs::{MemFs, MemNode, MemReadDir};
pub use crate::opts::{WalkDir, WalkDirOptions, WalkDirOptionsImmut};
pub use crate::rawdent::{RawDirEntry, RawDirEntryKind, ReadDir};
pub use crate::sort::{ByPath, Sorter};
pub use crate::storage::{Listing, PathView, StorageExt};
pub use crate::trace::{Env, WalkDirIteratorItem};
pub use crate::walk::{TransitionState, WalkDirIterator};
pub use crate::wd::{
    ContentFilter, ContentOrder, Depth, DeviceNum, IntoErr, IntoOk, IntoSome, Position,
};
