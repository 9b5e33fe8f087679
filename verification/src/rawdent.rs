//! Raw entries: one object of the storage with its metadata, before the
//! walk has decided anything about it; and the unread rest of a directory.
use vstd::prelude::*;
use crate::cp::ContentProcessor;
use crate::dir::FlatDirEntry;
use crate::error::{into_io_err, into_path_err, ErrorInner, IoError};
use crate::fs::{FileType, Metadata, SameFileHandle};
use crate::storage::StorageExt;

verus! {

/// How a raw entry was found.
#[derive(Clone, Copy, Debug, PartialEq, Eq, Structural)]
pub enum RawDirEntryKind {
    /// By its path alone: the root of a walk.
    Root,
    /// By reading its parent directory.
    DirEntry,
}

/// One object of the storage.
///
/// The metadata is captured when the entry is made and never asked for
/// again; `path` is always the path under which the entry was found, also
/// when `follow_link` says that the metadata is that of a link's target.
#[derive(Debug, PartialEq, Eq)]
pub struct RawDirEntry {
    pub path: String,
    pub metadata: Metadata,
    pub follow_link: bool,
    pub kind: RawDirEntryKind,
}

impl Clone for RawDirEntry {
    fn clone(&self) -> (r: Self)
        ensures
            r == *self,
    {
        RawDirEntry {
            path: self.path.clone(),
            metadata: self.metadata,
            follow_link: self.follow_link,
            kind: self.kind,
        }
    }
}

impl RawDirEntry {
    /// The entry that `from_path` makes of a path, or the error.
    pub open spec fn spec_from_path<E: StorageExt>(fs: &E, path: String) -> Result<
        RawDirEntry,
        ErrorInner,
    > {
        match fs.spec_metadata(path@, false) {
            Ok(md) => Ok(
                RawDirEntry {
                    path,
                    metadata: md,
                    follow_link: false,
                    kind: RawDirEntryKind::Root,
                },
            ),
            Err(e) => Err(ErrorInner::Io { path: Some(path), err: e }),
        }
    }

    /// The entry that `from_fsdent` makes of a path read from a directory,
    /// or the error.
    pub open spec fn spec_from_fsdent<E: StorageExt>(fs: &E, path: String) -> Result<
        RawDirEntry,
        ErrorInner,
    > {
        match fs.spec_metadata(path@, false) {
            Ok(md) => Ok(
                RawDirEntry {
                    path,
                    metadata: md,
                    follow_link: false,
                    kind: RawDirEntryKind::DirEntry,
                },
            ),
            Err(e) => Err(ErrorInner::Io { path: Some(path), err: e }),
        }
    }

    /// The entry that `follow` makes of a link, or the error.
    pub open spec fn spec_follow<E: StorageExt>(self, fs: &E) -> Result<RawDirEntry, ErrorInner> {
        match fs.spec_metadata(self.path@, true) {
            Ok(md) => Ok(
                RawDirEntry { path: self.path, metadata: md, follow_link: true, kind: self.kind },
            ),
            Err(e) => Err(ErrorInner::Io { path: Some(self.path), err: e }),
        }
    }

    /// What `read_dir` finds in the directory behind this entry: its raw
    /// entries in the order of the storage, or the error of opening it.
    pub open spec fn spec_read_dir<E: StorageExt>(self, fs: &E) -> Result<
        Seq<Result<RawDirEntry, ErrorInner>>,
        ErrorInner,
    > {
        match fs.spec_read_dir(self.path@) {
            Ok(items) => Ok(raw_entries(fs, items)),
            Err(e) => Err(ErrorInner::Io { path: Some(self.path), err: e }),
        }
    }

    /// Makes the entry of the root of a walk: asks the storage for the
    /// metadata of `path` itself (a link is not followed). A failure names
    /// the path.
    pub fn from_path<E: StorageExt>(path: &String, fs: &E) -> (r: Result<Self, ErrorInner>)
        ensures
            r == Self::spec_from_path(fs, *path),
    {
        match fs.metadata(path, false) {
            Ok(md) => Ok(
                RawDirEntry {
                    path: path.clone(),
                    metadata: md,
                    follow_link: false,
                    kind: RawDirEntryKind::Root,
                },
            ),
            Err(e) => Err(into_path_err(path, e)),
        }
    }

    /// Makes the entry of a path that was read from its parent directory.
    /// A failure names the path.
    pub fn from_fsdent<E: StorageExt>(path: String, fs: &E) -> (r: Result<Self, ErrorInner>)
        ensures
            r == Self::spec_from_fsdent(fs, path),
    {
        match fs.metadata(&path, false) {
            Ok(md) => Ok(
                RawDirEntry {
                    path,
                    metadata: md,
                    follow_link: false,
                    kind: RawDirEntryKind::DirEntry,
                },
            ),
            Err(e) => Err(ErrorInner::from_path(path, e)),
        }
    }

    /// Follows a symbolic link: the same path with the metadata of the
    /// target. A failure (a broken link) names the path.
    pub fn follow<E: StorageExt>(self, fs: &E) -> (r: Result<Self, ErrorInner>)
        ensures
            r == self.spec_follow(fs),
    {
        match fs.metadata(&self.path, true) {
            Ok(md) => Ok(
                RawDirEntry { path: self.path, metadata: md, follow_link: true, kind: self.kind },
            ),
            Err(e) => Err(ErrorInner::from_path(self.path, e)),
        }
    }

    /// The path under which the entry was found.
    pub fn path(&self) -> (r: &String)
        ensures
            *r == self.path,
    {
        &self.path
    }

    /// A copy of the path.
    pub fn pathbuf(&self) -> (r: String)
        ensures
            r == self.path,
    {
        self.path.clone()
    }

    /// Gives up the entry for its path.
    pub fn into_path(self) -> (r: String)
        ensures
            r == self.path,
    {
        self.path
    }

    /// The metadata captured when the entry was made.
    pub fn metadata(&self) -> (r: Metadata)
        ensures
            r == self.metadata,
    {
        self.metadata
    }

    /// Asks the storage for the metadata of the target of this entry.
    pub fn metadata_follow<E: StorageExt>(&self, fs: &E) -> (r: Result<Metadata, ErrorInner>)
        ensures
            r == match fs.spec_metadata(self.path@, true) {
                Ok(md) => Ok::<Metadata, ErrorInner>(md),
                Err(e) => Err::<Metadata, ErrorInner>(ErrorInner::Io { path: None, err: e }),
            },
    {
        match fs.metadata(&self.path, true) {
            Ok(md) => Ok(md),
            Err(e) => Err(into_io_err(e)),
        }
    }

    /// The kind of the object (of the target, for a followed link).
    pub fn file_type(&self) -> (r: FileType)
        ensures
            r == self.metadata.file_type,
    {
        self.metadata.file_type
    }

    /// Is the object a symbolic link (that was not followed)?
    pub fn is_symlink(&self) -> (r: bool)
        ensures
            r == (self.metadata.file_type is Symlink),
    {
        self.metadata.is_symlink()
    }

    /// Is the object a directory?
    pub fn is_dir(&self) -> (r: bool)
        ensures
            r == (self.metadata.file_type is Dir),
    {
        self.metadata.is_dir()
    }

    /// Was the entry made by following a symbolic link?
    pub fn follow_link(&self) -> (r: bool)
        ensures
            r == self.follow_link,
    {
        self.follow_link
    }

    /// The last component of the path.
    pub fn file_name<E: StorageExt>(&self, fs: &E) -> (r: String)
        ensures
            r@ == fs.spec_file_name(self.path@),
    {
        fs.get_file_name(&self.path)
    }

    /// Opens the directory behind this entry. A failure names the path.
    pub fn read_dir<E: StorageExt>(&self, fs: &E) -> (r: Result<ReadDir<E>, ErrorInner>)
        ensures
            match r {
                Ok(rd) => rd is Opened && self.spec_read_dir(fs) == Ok::<
                    Seq<Result<RawDirEntry, ErrorInner>>,
                    ErrorInner,
                >(rd.pending(fs)),
                Err(e) => self.spec_read_dir(fs) == Err::<
                    Seq<Result<RawDirEntry, ErrorInner>>,
                    ErrorInner,
                >(e),
            },
    {
        match fs.read_dir(&self.path) {
            Ok(rd) => Ok(ReadDir::new(rd)),
            Err(e) => Err(into_path_err(&self.path, e)),
        }
    }

    /// The handle that tells whether two paths lead to the same directory.
    pub fn fingerprint<E: StorageExt>(&self, fs: &E) -> (r: Result<SameFileHandle, ErrorInner>)
        ensures
            r == match fs.spec_handle(self.path@) {
                Ok(h) => Ok::<SameFileHandle, ErrorInner>(h),
                Err(e) => Err::<SameFileHandle, ErrorInner>(ErrorInner::Io { path: None, err: e }),
            },
    {
        match fs.get_handle(&self.path) {
            Ok(h) => Ok(h),
            Err(e) => Err(into_io_err(e)),
        }
    }

    /// Path, kind and link flag, copied out for an entry that outlives
    /// this one.
    pub fn clone_dent_parts(&self) -> (r: (String, FileType, bool))
        ensures
            r == (self.path, self.metadata.file_type, self.follow_link),
    {
        (self.path.clone(), self.metadata.file_type, self.follow_link)
    }

    /// Makes the caller's item of this entry, taken as an entry at `depth`
    /// that closes no loop; `None` if the processor suppresses it.
    pub fn make_content_item<CP: ContentProcessor>(
        &self,
        content_processor: &CP,
        is_dir: bool,
        depth: crate::wd::Depth,
    ) -> (r: Option<CP::Item>)
        ensures
            r == content_processor.spec_process(
                &FlatDirEntry { raw: *self, is_dir, loop_link: None },
                depth,
            ),
    {
        let flat = FlatDirEntry { raw: self.clone(), is_dir, loop_link: None };
        content_processor.process_direntry(&flat, depth)
    }

    /// A storage failure that concerns this entry.
    pub fn error_inner_from_entry(&self, err: IoError) -> (r: ErrorInner)
        ensures
            r == (ErrorInner::Io { path: Some(self.path), err }),
    {
        into_path_err(&self.path, err)
    }
}

/// The raw entry, or the error, that stands for one item of a directory
/// stream.
pub open spec fn raw_entry<E: StorageExt>(fs: &E, item: Result<String, IoError>) -> Result<
    RawDirEntry,
    ErrorInner,
> {
    match item {
        Ok(path) => RawDirEntry::spec_from_fsdent(fs, path),
        Err(e) => Err(ErrorInner::Io { path: None, err: e }),
    }
}

/// The raw entries that stand for the items of a directory stream.
pub open spec fn raw_entries<E: StorageExt>(fs: &E, items: Seq<Result<String, IoError>>) -> Seq<
    Result<RawDirEntry, ErrorInner>,
> {
    Seq::new(items.len(), |i: int| raw_entry(fs, items[i]))
}

/// The entries of one directory that have not been read yet.
pub enum ReadDir<E: StorageExt> {
    /// A single entry that is still to come (`Some`) or was handed out.
    /// This is the "directory" that holds the root of a walk.
    Once { item: Option<RawDirEntry> },
    /// An open stream of the storage.
    Opened { rd: E::ReadDir },
    /// Nothing is left, and nothing is held open.
    Closed,
    /// The directory could not be opened: the error is still to come
    /// (`Some`) or was handed out.
    Error(Option<ErrorInner>),
}

impl<E: StorageExt> ReadDir<E> {
    /// What is still to come, in order.
    pub open spec fn pending(&self, fs: &E) -> Seq<Result<RawDirEntry, ErrorInner>> {
        match self {
            ReadDir::Once { item: Some(x) } => seq![Ok(*x)],
            ReadDir::Once { item: None } => seq![],
            ReadDir::Opened { rd } => raw_entries(fs, fs.spec_pending(rd)),
            ReadDir::Closed => seq![],
            ReadDir::Error(Some(e)) => seq![Err(*e)],
            ReadDir::Error(None) => seq![],
        }
    }

    /// The "directory" of a root: the one entry made of `path`.
    pub fn new_once(path: &String, fs: &E) -> (r: Result<Self, ErrorInner>)
        ensures
            match (r, RawDirEntry::spec_from_path(fs, *path)) {
                (Ok(rd), Ok(raw)) => rd == (ReadDir::<E>::Once { item: Some(raw) }),
                (Err(e), Err(e2)) => e == e2,
                _ => false,
            },
    {
        match RawDirEntry::from_path(path, fs) {
            Ok(raw) => Ok(ReadDir::Once { item: Some(raw) }),
            Err(e) => Err(e),
        }
    }

    /// Wraps an open stream.
    pub fn new(rd: E::ReadDir) -> (r: Self)
        ensures
            r == (ReadDir::<E>::Opened { rd }),
    {
        ReadDir::Opened { rd }
    }

    /// Hands out the next raw entry, `None` when nothing is left.
    pub fn next(&mut self, fs: &E) -> (r: Option<Result<RawDirEntry, ErrorInner>>)
        ensures
            old(self).pending(fs).len() == 0 ==> r is None && final(self).pending(fs).len() == 0,
            old(self).pending(fs).len() > 0 ==> r == Some(old(self).pending(fs)[0])
                && final(self).pending(fs) == old(self).pending(fs).skip(1),
            (*old(self) is Once) == (*final(self) is Once),
            (*old(self) is Opened) == (*final(self) is Opened),
            (*old(self) is Closed) == (*final(self) is Closed),
            (*old(self) is Error) == (*final(self) is Error),
    {
        match self {
            ReadDir::Once { item } => {
                match item.take() {
                    Some(x) => {
                        proof {
                            assert(seq![Ok::<RawDirEntry, ErrorInner>(x)].skip(1) =~= seq![]);
                        }
                        Some(Ok(x))
                    },
                    None => None,
                }
            },
            ReadDir::Opened { rd } => {
                let ghost before = fs.spec_pending(rd);
                match fs.next_entry(rd) {
                    Some(item) => {
                        proof {
                            assert(raw_entries(fs, before.skip(1)) =~= raw_entries(
                                fs,
                                before,
                            ).skip(1));
                        }
                        match item {
                            Ok(path) => Some(RawDirEntry::from_fsdent(path, fs)),
                            Err(e) => Some(Err(into_io_err(e))),
                        }
                    },
                    None => None,
                }
            },
            ReadDir::Closed => None,
            ReadDir::Error(err) => {
                match err.take() {
                    Some(e) => {
                        proof {
                            assert(seq![Err::<RawDirEntry, ErrorInner>(e)].skip(1) =~= seq![]);
                        }
                        Some(Err(e))
                    },
                    None => None,
                }
            },
        }
    }

    /// Lets go of an open stream: afterwards nothing is left to come.
    /// A single entry or an error that was not handed out is dropped too.
    pub fn close(&mut self)
        ensures
            *old(self) is Error ==> *final(self) == ReadDir::<E>::Error(None),
            !(*old(self) is Error) ==> *final(self) == ReadDir::<E>::Closed,
    {
        match self {
            ReadDir::Error(_) => {
                *self = ReadDir::Error(None);
            },
            _ => {
                *self = ReadDir::Closed;
            },
        }
    }

    /// Reads everything that is left and lets go of the stream.
    pub fn collect_all(&mut self, fs: &E) -> (v: Vec<Result<RawDirEntry, ErrorInner>>)
        ensures
            v@ == old(self).pending(fs),
            final(self).pending(fs).len() == 0,
            *old(self) is Error ==> *final(self) == ReadDir::<E>::Error(None),
            !(*old(self) is Error) ==> *final(self) == ReadDir::<E>::Closed,
    {
        let mut v: Vec<Result<RawDirEntry, ErrorInner>> = Vec::new();
        loop
            invariant
                v@ + self.pending(fs) == old(self).pending(fs),
                *old(self) is Error <==> *self is Error,
            ensures
                v@ == old(self).pending(fs),
                *old(self) is Error <==> *self is Error,
            decreases self.pending(fs).len(),
        {
            let ghost before = self.pending(fs);
            match self.next(fs) {
                Some(x) => {
                    v.push(x);
                    proof {
                        assert(v@ + before.skip(1) =~= (v@.drop_last() + before));
                    }
                },
                None => {
                    proof {
                        assert(v@ + before =~= v@);
                    }
                    break ;
                },
            }
        }
        self.close();
        v
    }
}

} // verus!
