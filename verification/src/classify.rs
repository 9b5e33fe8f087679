//! Classifying raw entries: following links, detecting loops, and staying
//! on one file system.
use vstd::prelude::*;
use crate::dir::FlatDirEntry;
use crate::error::{into_io_err, ErrorInner};
use crate::fs::SameFileHandle;
use crate::opts::WalkDirOptionsImmut;
use crate::rawdent::RawDirEntry;
use crate::storage::StorageExt;
use crate::wd::{Depth, DeviceNum};

verus! {

/// A directory on the path from the root to the place where the walk
/// stands, with the handle that recognises it.
#[derive(Debug, PartialEq, Eq)]
pub struct Ancestor {
    pub path: String,
    pub handle: SameFileHandle,
}

impl Ancestor {
    /// The ancestor that `new` makes of a directory, or the error.
    pub open spec fn spec_new<E: StorageExt>(fs: &E, raw: &RawDirEntry) -> Result<
        Ancestor,
        ErrorInner,
    > {
        match fs.spec_handle(raw.path@) {
            Ok(handle) => Ok(Ancestor { path: raw.path, handle }),
            Err(e) => Err(ErrorInner::Io { path: None, err: e }),
        }
    }

    /// Makes the ancestor that stands for a directory: asks the storage for
    /// its handle.
    pub fn new<E: StorageExt>(raw: &RawDirEntry, fs: &E) -> (r: Result<Ancestor, ErrorInner>)
        ensures
            r == Self::spec_new(fs, raw),
    {
        match fs.get_handle(&raw.path) {
            Ok(handle) => Ok(Ancestor { path: raw.path.clone(), handle }),
            Err(e) => Err(into_io_err(e)),
        }
    }

    /// Is the object behind `child` this directory?
    pub fn is_same(&self, child: &SameFileHandle) -> (r: bool)
        ensures
            r == (self.handle == *child),
    {
        self.handle.dev == child.dev && self.handle.ino == child.ino
    }
}

/// What the classification of an entry depends on, besides the storage,
/// the entry and its depth.
pub struct Cx {
    pub opts: WalkDirOptionsImmut,
    /// The device of the root, where the walk stays on one file system.
    pub root_device: Option<DeviceNum>,
    /// The directories from the root down to the one that holds the entry.
    pub chain: Seq<Ancestor>,
}

/// The index of the innermost directory of `chain` that `handle`
/// recognises.
pub open spec fn spec_check_loop(chain: Seq<Ancestor>, handle: SameFileHandle) -> Option<usize>
    decreases chain.len(),
{
    if chain.len() == 0 {
        None
    } else if chain.last().handle == handle {
        Some((chain.len() - 1) as usize)
    } else {
        spec_check_loop(chain.drop_last(), handle)
    }
}

/// What following the link `raw` gives: the entry of its target and, if
/// the target is a directory on `chain`, the index of that directory.
pub open spec fn spec_follow<E: StorageExt>(fs: &E, chain: Seq<Ancestor>, raw: RawDirEntry) -> Result<
    (RawDirEntry, Option<usize>),
    ErrorInner,
> {
    match raw.spec_follow(fs) {
        Err(e) => Err(e),
        Ok(dent) => if dent.metadata.file_type is Dir && chain.len() > 0 {
            match fs.spec_handle(dent.path@) {
                Err(e) => Err(ErrorInner::Io { path: None, err: e }),
                Ok(h) => Ok((dent, spec_check_loop(chain, h))),
            }
        } else {
            Ok((dent, None))
        },
    }
}

/// The classification of the raw entry `raw`, met at `depth`:
/// - a symbolic link is followed if `follow_links` is set, and marked if it
///   leads back to a directory of the chain;
/// - the entry is a directory to walk into if it is (after that) a real
///   directory; a root that is a link is one if its target is;
/// - `None`: the entry is a directory on another device than the root while
///   `same_file_system` is set. It is passed over in silence.
pub open spec fn spec_classify<E: StorageExt>(fs: &E, cx: Cx, depth: Depth, raw: RawDirEntry) -> Option<
    Result<FlatDirEntry, ErrorInner>,
> {
    let followed = if raw.metadata.file_type is Symlink && cx.opts.follow_links {
        spec_follow(fs, cx.chain, raw)
    } else {
        Ok((raw, None))
    };
    match followed {
        Err(e) => Some(Err(e)),
        Ok((dent, loop_link)) => {
            if dent.metadata.file_type is Dir {
                if cx.opts.same_file_system && depth > 0 {
                    match fs.spec_device_num(dent.path@) {
                        Err(e) => Some(Err(ErrorInner::Io { path: Some(dent.path), err: e })),
                        Ok(dev) => if cx.root_device == Some(dev) {
                            Some(Ok(FlatDirEntry { raw: dent, is_dir: true, loop_link }))
                        } else {
                            None
                        },
                    }
                } else {
                    Some(Ok(FlatDirEntry { raw: dent, is_dir: true, loop_link }))
                }
            } else if depth == 0 && dent.metadata.file_type is Symlink {
                match fs.spec_metadata(dent.path@, true) {
                    Err(e) => Some(Err(ErrorInner::Io { path: Some(dent.path), err: e })),
                    Ok(md) => Some(
                        Ok(FlatDirEntry { raw: dent, is_dir: md.file_type is Dir, loop_link }),
                    ),
                }
            } else {
                Some(Ok(FlatDirEntry { raw: dent, is_dir: false, loop_link }))
            }
        },
    }
}

/// The index that `spec_check_loop` finds lies within the chain.
pub proof fn lemma_check_loop_bound(chain: Seq<Ancestor>, handle: SameFileHandle)
    ensures
        spec_check_loop(chain, handle) matches Some(i) ==> i < chain.len(),
    decreases chain.len(),
{
    if chain.len() > 0 && chain.last().handle != handle {
        lemma_check_loop_bound(chain.drop_last(), handle);
    }
}

/// A link is marked as leading back to a directory of the chain only: the
/// index that classification notes lies within the chain.
pub proof fn lemma_classify_loop_link<E: StorageExt>(fs: &E, cx: Cx, depth: Depth, raw: RawDirEntry)
    ensures
        spec_classify(fs, cx, depth, raw) matches Some(Ok(flat)) ==> (flat.loop_link matches Some(
            i,
        ) ==> i < cx.chain.len()),
{
    if raw.metadata.file_type is Symlink && cx.opts.follow_links {
        match raw.spec_follow(fs) {
            Ok(dent) => {
                if dent.metadata.file_type is Dir && cx.chain.len() > 0 {
                    match fs.spec_handle(dent.path@) {
                        Ok(h) => {
                            lemma_check_loop_bound(cx.chain, h);
                        },
                        Err(_) => {},
                    }
                }
            },
            Err(_) => {},
        }
    }
}

/// The part of a walk's state that classification reads.
///
/// An entry at depth `d` is classified against the first `d` ancestors:
/// the directories from the root down to the one that holds it. So an entry
/// is classified the same way whenever its directory is read, early or
/// late.
pub struct Classifier<'a> {
    pub opts: &'a WalkDirOptionsImmut,
    pub root_device: Option<DeviceNum>,
    pub ancestors: &'a Vec<Ancestor>,
}

impl<'a> Classifier<'a> {
    /// The directories that an entry at `depth` is checked against.
    pub open spec fn chain(&self, depth: Depth) -> Seq<Ancestor> {
        if depth <= self.ancestors@.len() {
            self.ancestors@.take(depth as int)
        } else {
            self.ancestors@
        }
    }

    /// What classification at `depth` depends on.
    pub open spec fn cx(&self, depth: Depth) -> Cx {
        Cx { opts: *self.opts, root_device: self.root_device, chain: self.chain(depth) }
    }

    /// Looks for the directory of the chain that `child` leads to, from
    /// the innermost outward.
    pub fn check_loop<E: StorageExt>(&self, depth: Depth, child: &String, fs: &E) -> (r: Result<
        Option<usize>,
        ErrorInner,
    >)
        ensures
            r == match fs.spec_handle(child@) {
                Err(e) => Err::<Option<usize>, ErrorInner>(ErrorInner::Io { path: None, err: e }),
                Ok(h) => Ok::<Option<usize>, ErrorInner>(spec_check_loop(self.chain(depth), h)),
            },
    {
        let hchild = match fs.get_handle(child) {
            Ok(h) => h,
            Err(e) => {
                return Err(into_io_err(e));
            },
        };
        let mut index: usize = if depth <= self.ancestors.len() {
            depth
        } else {
            self.ancestors.len()
        };
        let ghost chain = self.chain(depth);
        proof {
            assert(chain.take(index as int) =~= chain);
        }
        while index > 0
            invariant
                fs.spec_handle(child@) == Ok::<SameFileHandle, crate::error::IoError>(hchild),
                index <= chain.len(),
                chain == self.chain(depth),
                chain.len() <= self.ancestors@.len(),
                forall|i: int| 0 <= i < chain.len() ==> chain[i] == self.ancestors@[i],
                spec_check_loop(chain, hchild) == spec_check_loop(chain.take(index as int), hchild),
            decreases index,
        {
            index = index - 1;
            proof {
                let c = chain.take(index + 1);
                assert(c.last() == chain[index as int]);
                assert(c.drop_last() =~= chain.take(index as int));
                assert(spec_check_loop(c, hchild) == if c.last().handle == hchild {
                    Some(index)
                } else {
                    spec_check_loop(chain.take(index as int), hchild)
                });
            }
            if self.ancestors[index].is_same(&hchild) {
                return Ok(Some(index));
            }
        }
        proof {
            assert(chain.take(0).len() == 0);
        }
        Ok(None)
    }

    /// Follows the link `raw`, and looks for a loop if it leads to a
    /// directory.
    pub fn follow<E: StorageExt>(&self, raw: RawDirEntry, depth: Depth, fs: &E) -> (r: Result<
        (RawDirEntry, Option<usize>),
        ErrorInner,
    >)
        ensures
            r == spec_follow(fs, self.chain(depth), raw),
    {
        let dent = match raw.follow(fs) {
            Ok(d) => d,
            Err(e) => {
                return Err(e);
            },
        };
        let chain_len = if depth <= self.ancestors.len() {
            depth
        } else {
            self.ancestors.len()
        };
        if dent.is_dir() && chain_len > 0 {
            match self.check_loop(depth, &dent.path, fs) {
                Ok(loop_link) => Ok((dent, loop_link)),
                Err(e) => Err(e),
            }
        } else {
            Ok((dent, None))
        }
    }

    /// Is `raw` on the device of the root? A failure names the entry.
    pub fn is_same_file_system<E: StorageExt>(&self, raw: &RawDirEntry, fs: &E) -> (r: Result<
        bool,
        ErrorInner,
    >)
        ensures
            r == match fs.spec_device_num(raw.path@) {
                Err(e) => Err::<bool, ErrorInner>(ErrorInner::Io { path: Some(raw.path), err: e }),
                Ok(dev) => Ok::<bool, ErrorInner>(self.root_device == Some(dev)),
            },
    {
        match fs.device_num(&raw.path) {
            Err(e) => Err(raw.error_inner_from_entry(e)),
            Ok(dev) => Ok(
                match self.root_device {
                    Some(d) => d == dev,
                    None => false,
                },
            ),
        }
    }

    /// Classifies the raw entry `raw`, met at `depth`.
    pub fn process_rawdent<E: StorageExt>(&self, raw: RawDirEntry, depth: Depth, fs: &E) -> (r:
        Option<Result<FlatDirEntry, ErrorInner>>)
        ensures
            r == spec_classify(fs, self.cx(depth), depth, raw),
    {
        let (dent, loop_link) = if raw.is_symlink() && self.opts.follow_links {
            match self.follow(raw, depth, fs) {
                Ok(pair) => pair,
                Err(e) => {
                    return Some(Err(e));
                },
            }
        } else {
            (raw, None)
        };
        if dent.is_dir() {
            if self.opts.same_file_system && depth > 0 {
                match self.is_same_file_system(&dent, fs) {
                    Err(e) => {
                        return Some(Err(e));
                    },
                    Ok(same) => {
                        if !same {
                            return None;
                        }
                    },
                }
            }
            Some(Ok(FlatDirEntry { raw: dent, is_dir: true, loop_link }))
        } else if depth == 0 && dent.is_symlink() {
            match fs.metadata(&dent.path, true) {
                Err(e) => Some(Err(dent.error_inner_from_entry(e))),
                Ok(md) => {
                    let is_dir = md.is_dir();
                    Some(Ok(FlatDirEntry { raw: dent, is_dir, loop_link }))
                },
            }
        } else {
            Some(Ok(FlatDirEntry { raw: dent, is_dir: false, loop_link }))
        }
    }
}

} // verus!
