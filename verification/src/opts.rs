//! The options of a walk, and the builder that sets them.
use vstd::prelude::*;
use crate::cp::{ContentProcessor, DirEntryContentProcessor};
use crate::iter::ClassicIter;
use crate::sort::{ByPath, Sorter};
use crate::storage::StorageExt;
use crate::walk::WalkDirIterator;
use crate::wd::{ContentFilter, ContentOrder};

verus! {

/// The options that stay fixed during a walk.
#[derive(Clone, Copy, Debug)]
pub struct WalkDirOptionsImmut {
    /// Do not walk into directories on another device than the root.
    pub same_file_system: bool,
    /// Treat a symbolic link as what it leads to, and watch for loops.
    pub follow_links: bool,
    /// Yield a link that closes a loop as an entry instead of an error.
    pub yield_loop_links: bool,
    /// How many directories may be held open at once; at least 1.
    pub max_open: usize,
    /// Entries above this depth are not yielded.
    pub min_depth: usize,
    /// Directories at this depth are not opened.
    pub max_depth: usize,
    /// Yield a directory after its content instead of before.
    pub contents_first: bool,
    /// Which entries are yielded.
    pub content_filter: ContentFilter,
    /// In which order the entries of one directory are visited.
    pub content_order: ContentOrder,
}

impl WalkDirOptionsImmut {
    /// The options are consistent: at least one directory may be open, and
    /// the depth limits leave a range.
    pub open spec fn wf(&self) -> bool {
        &&& self.max_open >= 1
        &&& self.min_depth <= self.max_depth
    }

    /// The options that a new builder starts with.
    pub open spec fn spec_default() -> Self {
        WalkDirOptionsImmut {
            same_file_system: false,
            follow_links: false,
            yield_loop_links: false,
            max_open: 10,
            min_depth: 0,
            max_depth: usize::MAX,
            contents_first: false,
            content_filter: ContentFilter::NoFilter,
            content_order: ContentOrder::Unordered,
        }
    }
}

impl Default for WalkDirOptionsImmut {
    fn default() -> (r: Self)
        ensures
            r == Self::spec_default(),
            r.wf(),
    {
        WalkDirOptionsImmut {
            same_file_system: false,
            follow_links: false,
            yield_loop_links: false,
            max_open: 10,
            min_depth: 0,
            max_depth: usize::MAX,
            contents_first: false,
            content_filter: ContentFilter::NoFilter,
            content_order: ContentOrder::Unordered,
        }
    }
}

/// All options of a walk: the fixed ones and the sorter, if one is set.
pub struct WalkDirOptions<S> {
    pub immut: WalkDirOptionsImmut,
    pub sorter: Option<S>,
}

impl<S> Default for WalkDirOptions<S> {
    fn default() -> (r: Self)
        ensures
            r.immut == WalkDirOptionsImmut::spec_default(),
            r.sorter is None,
    {
        WalkDirOptions { immut: WalkDirOptionsImmut::default(), sorter: None }
    }
}

/// The builder of a walk.
///
/// A walk goes through the tree below `root` depth first and yields each
/// directory before its content, or after it with `contents_first`. The
/// entries of a directory come in the order of the storage unless a sorter
/// or an order is set. An error met on the way is yielded in place of what
/// it concerns, and the walk goes on.
pub struct WalkDir<E: StorageExt, CP: ContentProcessor, S: Sorter> {
    pub opts: WalkDirOptions<S>,
    pub root: String,
    /// The storage to walk.
    pub fs: E,
    pub content_processor: CP,
}

impl<E: StorageExt> WalkDir<E, DirEntryContentProcessor, ByPath> {
    /// A builder for a walk of `fs` from `root`, with the options that
    /// `WalkDirOptionsImmut::spec_default` names, without a sorter, yielding
    /// [`crate::dent::DirEntry`] items.
    ///
    /// If `root` is a directory it is the first entry yielded; if it is a
    /// file it is the only one. A root that is a symbolic link is followed
    /// for the walk, whatever `follow_links` says.
    pub fn new(root: &str, fs: E) -> (r: Self)
        ensures
            r.root@ == root@,
            r.fs == fs,
            r.opts.immut == WalkDirOptionsImmut::spec_default(),
            r.opts.sorter is None,
            r.opts.immut.wf(),
    {
        WalkDir {
            opts: WalkDirOptions::default(),
            root: root.to_owned(),
            fs,
            content_processor: DirEntryContentProcessor {  },
        }
    }
}

impl<E: StorageExt, CP: ContentProcessor, S: Sorter> WalkDir<E, CP, S> {
    /// Starts the walk. A limit of 0 open directories counts as 1.
    pub fn into_iter(self) -> (r: WalkDirIterator<E, CP, S>)
        ensures
            r.wf(),
            r.fs == self.fs,
            r.content_processor == self.content_processor,
            r.opts.sorter == self.opts.sorter,
            r.opts.immut == (if self.opts.immut.max_open == 0 {
                WalkDirOptionsImmut { max_open: 1, ..self.opts.immut }
            } else {
                self.opts.immut
            }),
            r.start == Some(self.root),
            r.remaining() == crate::trace::walk_trace(
                self.fs,
                self.content_processor,
                self.opts.sorter,
                r.opts.immut,
                self.root,
            ),
    {
        WalkDirIterator::new(self.opts, self.root, self.fs, self.content_processor)
    }

    /// Starts the walk, as an iterator over entries and errors alone.
    pub fn into_classic(self) -> (r: ClassicIter<CP, WalkDirIterator<E, CP, S>>)
        ensures
            r.inner.wf(),
            r.inner.fs == self.fs,
            r.inner.content_processor == self.content_processor,
            r.inner.opts.sorter == self.opts.sorter,
            r.inner.opts.immut == (if self.opts.immut.max_open == 0 {
                WalkDirOptionsImmut { max_open: 1, ..self.opts.immut }
            } else {
                self.opts.immut
            }),
            r.inner.start == Some(self.root),
            r.remaining() == crate::iter::classic_trace::<CP>(
                crate::trace::walk_trace(
                    self.fs,
                    self.content_processor,
                    self.opts.sorter,
                    r.inner.opts.immut,
                    self.root,
                ),
            ),
    {
        self.into_iter().into_classic()
    }

    /// Replaces the processor that makes the items of the walk.
    pub fn content_processor<CP2: ContentProcessor>(self, content_processor: CP2) -> (r: WalkDir<
        E,
        CP2,
        S,
    >)
        ensures
            r.opts == self.opts,
            r.root == self.root,
            r.fs == self.fs,
            r.content_processor == content_processor,
    {
        WalkDir { opts: self.opts, root: self.root, fs: self.fs, content_processor }
    }

    /// Do not walk into directories on another device than the root.
    pub fn same_file_system(self, yes: bool) -> (r: Self)
        ensures
            r.opts.immut == (WalkDirOptionsImmut { same_file_system: yes, ..self.opts.immut }),
            r.opts.sorter == self.opts.sorter,
            r.root == self.root,
            r.fs == self.fs,
            r.content_processor == self.content_processor,
            self.opts.immut.wf() ==> r.opts.immut.wf(),
    {
        let mut this = self;
        this.opts.immut.same_file_system = yes;
        this
    }

    /// Follow symbolic links: a link is treated as what it leads to. A
    /// link that leads back to a directory on the way down closes a loop;
    /// it is reported as an error and not followed.
    pub fn follow_links(self, yes: bool) -> (r: Self)
        ensures
            r.opts.immut == (WalkDirOptionsImmut { follow_links: yes, ..self.opts.immut }),
            r.opts.sorter == self.opts.sorter,
            r.root == self.root,
            r.fs == self.fs,
            r.content_processor == self.content_processor,
            self.opts.immut.wf() ==> r.opts.immut.wf(),
    {
        let mut this = self;
        this.opts.immut.follow_links = yes;
        this
    }

    /// Yield a link that closes a loop as an entry, instead of reporting
    /// an error. The walk does not go into it either way.
    pub fn yield_loop_links(self, yes: bool) -> (r: Self)
        ensures
            r.opts.immut == (WalkDirOptionsImmut { yield_loop_links: yes, ..self.opts.immut }),
            r.opts.sorter == self.opts.sorter,
            r.root == self.root,
            r.fs == self.fs,
            r.content_processor == self.content_processor,
            self.opts.immut.wf() ==> r.opts.immut.wf(),
    {
        let mut this = self;
        this.opts.immut.yield_loop_links = yes;
        this
    }

    /// Sets the least depth of the entries that are yielded; it is lowered
    /// to the greatest depth if it lies above it.
    pub fn min_depth(self, depth: usize) -> (r: Self)
        ensures
            r.opts.immut == (WalkDirOptionsImmut {
                min_depth: if depth > self.opts.immut.max_depth {
                    self.opts.immut.max_depth
                } else {
                    depth
                },
                ..self.opts.immut
            }),
            r.opts.sorter == self.opts.sorter,
            r.root == self.root,
            r.fs == self.fs,
            r.content_processor == self.content_processor,
            self.opts.immut.wf() ==> r.opts.immut.wf(),
    {
        let mut this = self;
        this.opts.immut.min_depth = depth;
        if this.opts.immut.min_depth > this.opts.immut.max_depth {
            this.opts.immut.min_depth = this.opts.immut.max_depth;
        }
        this
    }

    /// Sets the greatest depth of the entries that are yielded: the walk
    /// does not go into directories at this depth. It is raised to the
    /// least depth if it lies below it.
    pub fn max_depth(self, depth: usize) -> (r: Self)
        ensures
            r.opts.immut == (WalkDirOptionsImmut {
                max_depth: if depth < self.opts.immut.min_depth {
                    self.opts.immut.min_depth
                } else {
                    depth
                },
                ..self.opts.immut
            }),
            r.opts.sorter == self.opts.sorter,
            r.root == self.root,
            r.fs == self.fs,
            r.content_processor == self.content_processor,
            self.opts.immut.wf() ==> r.opts.immut.wf(),
    {
        let mut this = self;
        this.opts.immut.max_depth = depth;
        if this.opts.immut.max_depth < this.opts.immut.min_depth {
            this.opts.immut.max_depth = this.opts.immut.min_depth;
        }
        this
    }

    /// Sets how many directories the walk may hold open at once; 0 counts
    /// as 1. What the walk yields does not depend on it.
    pub fn max_open(self, n: usize) -> (r: Self)
        ensures
            r.opts.immut == (WalkDirOptionsImmut {
                max_open: if n == 0 {
                    1
                } else {
                    n
                },
                ..self.opts.immut
            }),
            r.opts.sorter == self.opts.sorter,
            r.root == self.root,
            r.fs == self.fs,
            r.content_processor == self.content_processor,
            self.opts.immut.wf() ==> r.opts.immut.wf(),
    {
        let mut this = self;
        this.opts.immut.max_open = if n == 0 {
            1
        } else {
            n
        };
        this
    }

    /// Sets the sorter: the entries of each directory are visited in its
    /// order.
    pub fn sort_by<S2: Sorter>(self, cmp: S2) -> (r: WalkDir<E, CP, S2>)
        ensures
            r.opts.immut == self.opts.immut,
            r.opts.sorter == Some(cmp),
            r.root == self.root,
            r.fs == self.fs,
            r.content_processor == self.content_processor,
    {
        WalkDir {
            opts: WalkDirOptions { immut: self.opts.immut, sorter: Some(cmp) },
            root: self.root,
            fs: self.fs,
            content_processor: self.content_processor,
        }
    }

    /// Yield each directory after its content instead of before.
    pub fn contents_first(self, yes: bool) -> (r: Self)
        ensures
            r.opts.immut == (WalkDirOptionsImmut { contents_first: yes, ..self.opts.immut }),
            r.opts.sorter == self.opts.sorter,
            r.root == self.root,
            r.fs == self.fs,
            r.content_processor == self.content_processor,
            self.opts.immut.wf() ==> r.opts.immut.wf(),
    {
        let mut this = self;
        this.opts.immut.contents_first = yes;
        this
    }

    /// Sets which entries are yielded.
    pub fn content_filter(self, filter: ContentFilter) -> (r: Self)
        ensures
            r.opts.immut == (WalkDirOptionsImmut { content_filter: filter, ..self.opts.immut }),
            r.opts.sorter == self.opts.sorter,
            r.root == self.root,
            r.fs == self.fs,
            r.content_processor == self.content_processor,
            self.opts.immut.wf() ==> r.opts.immut.wf(),
    {
        let mut this = self;
        this.opts.immut.content_filter = filter;
        this
    }

    /// Sets the order in which the entries of one directory are visited.
    pub fn content_order(self, order: ContentOrder) -> (r: Self)
        ensures
            r.opts.immut == (WalkDirOptionsImmut { content_order: order, ..self.opts.immut }),
            r.opts.sorter == self.opts.sorter,
            r.root == self.root,
            r.fs == self.fs,
            r.content_processor == self.content_processor,
            self.opts.immut.wf() ==> r.opts.immut.wf(),
    {
        let mut this = self;
        this.opts.immut.content_order = order;
        this
    }
}

} // verus!
