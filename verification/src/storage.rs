//! The storage that a walk reads: one capability interface.
use vstd::prelude::*;
use crate::error::IoError;
use crate::fs::{Metadata, SameFileHandle};
use crate::wd::DeviceNum;

verus! {

/// A path as the description of a storage sees it: its characters.
pub type PathView = Seq<char>;

/// What a directory hands out, as the description of a storage sees it:
/// the paths of its entries, each possibly replaced by a failure.
pub type Listing = Seq<Result<String, IoError>>;

/// A storage backend.
///
/// The walk reads a tree only through these methods. Each of them answers
/// from a fixed description of the tree, given by the `spec_` functions:
/// asking twice gives the same answer. A directory is read through a stream,
/// which hands out the paths of the entries one at a time; what a stream has
/// still to hand out is `spec_pending`.
///
/// An implementation over a file system that changes while it is walked
/// does not meet this contract; what is proved of a walk then holds of the
/// answers that the storage actually gave only as far as they were
/// consistent.
///
/// An implementation that is not verified names the `spec_` functions all
/// the same; no running program calls them.
pub trait StorageExt: Sized {
    /// An open directory.
    type ReadDir;

    /// What `metadata` answers for a path.
    spec fn spec_metadata(&self, path: PathView, follow_link: bool) -> Result<Metadata, IoError>;

    /// What a directory lists: the paths of its entries in the order of the
    /// storage, each possibly replaced by a failure; or the failure to open it.
    spec fn spec_read_dir(&self, path: PathView) -> Result<Listing, IoError>;

    /// What a stream has not handed out yet.
    spec fn spec_pending(&self, rd: &Self::ReadDir) -> Listing;

    /// What `get_handle` answers for a path.
    spec fn spec_handle(&self, path: PathView) -> Result<SameFileHandle, IoError>;

    /// What `device_num` answers for a path.
    spec fn spec_device_num(&self, path: PathView) -> Result<DeviceNum, IoError>;

    /// The last component of a path.
    spec fn spec_file_name(&self, path: PathView) -> PathView;

    /// Type and metadata of the object at `path`; of the target, if
    /// `follow_link` is set and it is a symbolic link.
    fn metadata(&self, path: &String, follow_link: bool) -> (r: Result<Metadata, IoError>)
        ensures
            r == self.spec_metadata(path@, follow_link),
    ;

    /// Opens the directory at `path` (following a symbolic link).
    fn read_dir(&self, path: &String) -> (r: Result<Self::ReadDir, IoError>)
        ensures
            match r {
                Ok(rd) => self.spec_read_dir(path@) == Ok::<Seq<Result<String, IoError>>, IoError>(
                    self.spec_pending(&rd),
                ),
                Err(e) => self.spec_read_dir(path@) == Err::<Seq<Result<String, IoError>>, IoError>(
                    e,
                ),
            },
    ;

    /// Hands out the next entry of an open directory, `None` at its end.
    fn next_entry(&self, rd: &mut Self::ReadDir) -> (r: Option<Result<String, IoError>>)
        ensures
            self.spec_pending(old(rd)).len() == 0 ==> r is None && self.spec_pending(
                final(rd),
            ).len() == 0,
            self.spec_pending(old(rd)).len() > 0 ==> r == Some(self.spec_pending(old(rd))[0])
                && self.spec_pending(final(rd)) == self.spec_pending(old(rd)).skip(1),
    ;

    /// The handle of the object at `path` (following a symbolic link).
    fn get_handle(&self, path: &String) -> (r: Result<SameFileHandle, IoError>)
        ensures
            r == self.spec_handle(path@),
    ;

    /// The device that holds the object at `path`.
    fn device_num(&self, path: &String) -> (r: Result<DeviceNum, IoError>)
        ensures
            r == self.spec_device_num(path@),
    ;

    /// The last component of `path`; the whole path where it has none.
    fn get_file_name(&self, path: &String) -> (r: String)
        ensures
            r@ == self.spec_file_name(path@),
    ;
}

} // verus!
