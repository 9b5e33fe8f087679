//! What holds of every walk: laws of the sequence that a walk yields.
use vstd::prelude::*;
use crate::classify::Ancestor;
use crate::cp::{ContentProcessor, DirEntryContentProcessor};
use crate::dent::DirEntry;
use crate::dir::{DirEntryRecord, DirPass, FlatDirEntry};
use crate::error::{Error, ErrorInner};
use crate::opts::WalkDirOptionsImmut;
use crate::rawdent::RawDirEntry;
use crate::sort::Sorter;
use crate::storage::StorageExt;
use crate::trace::Env;
use crate::walk::WalkDirIterator;
use crate::wd::{ContentFilter, ContentOrder, Depth, Position};

verus! {

/// The steps of a walk that yields [`DirEntry`] items.
pub type ClassicItem = Position<Option<DirEntry>, DirEntry, Error>;

/// Every entry among the steps `s` has a depth from `lo` to `hi`, and so
/// has every directory that is entered and every error.
pub open spec fn depths_within(s: Seq<ClassicItem>, lo: usize, hi: usize) -> bool {
    forall|i: int|
        0 <= i < s.len() ==> match #[trigger] s[i] {
            Position::Entry(d) => lo <= d.depth <= hi,
            Position::BeforeContent(Some(d)) => d.depth < hi,
            Position::BeforeContent(None) => true,
            Position::Error(e) => e.depth <= hi,
            Position::AfterContent => true,
        }
}

/// What holds of two sequences of steps holds of the two in a row.
pub proof fn lemma_depths_within_add(a: Seq<ClassicItem>, b: Seq<ClassicItem>, lo: usize, hi: usize)
    requires
        depths_within(a, lo, hi),
        depths_within(b, lo, hi),
    ensures
        depths_within(a + b, lo, hi),
{
    assert forall|i: int| 0 <= i < (a + b).len() implies match #[trigger] (a + b)[i] {
        Position::Entry(d) => lo <= d.depth <= hi,
        Position::BeforeContent(Some(d)) => d.depth < hi,
        Position::BeforeContent(None) => true,
        Position::Error(e) => e.depth <= hi,
        Position::AfterContent => true,
    } by {
        if i < a.len() {
            assert((a + b)[i] == a[i]);
        } else {
            assert((a + b)[i] == b[i - a.len()]);
        }
    }
}

impl<E: StorageExt, S: Sorter> Env<E, DirEntryContentProcessor, S> {
    /// The entry of a record is yielded only within the depth limits.
    pub proof fn lemma_entry_item_depths(&self, rec: DirEntryRecord, depth: Depth)
        requires
            depth <= self.opts.max_depth,
        ensures
            depths_within(self.entry_item(rec, depth), self.opts.min_depth, self.opts.max_depth),
            depths_within(self.pre_trace(rec, depth), self.opts.min_depth, self.opts.max_depth),
            depths_within(self.post_trace(rec, depth), self.opts.min_depth, self.opts.max_depth),
    {
    }

    /// Going into a directory yields entries within the depth limits only.
    pub proof fn lemma_descend_depths(&self, flat: FlatDirEntry, depth: Depth, chain: Seq<Ancestor>)
        requires
            depth <= self.opts.max_depth,
        ensures
            depths_within(
                self.descend_trace(flat, depth, chain),
                self.opts.min_depth,
                self.opts.max_depth,
            ),
        decreases self.opts.max_depth - depth, 0nat, 0nat,
    {
        self.lemma_descend_trace(flat, depth, chain);
        if depth < self.opts.max_depth && flat.loop_link is None {
            match self.open_dir(flat, chain) {
                Err(e) => {},
                Ok((raws, chain2)) => {
                    let below = (depth + 1) as usize;
                    let order = crate::dir::spec_visit_order(
                        &self.fs,
                        self.cx(chain2),
                        below,
                        &self.sorter,
                        raws,
                    );
                    self.lemma_content_depths(order, below, chain2);
                    let lo = self.opts.min_depth;
                    let hi = self.opts.max_depth;
                    let head = seq![
                        Position::<Option<DirEntry>, DirEntry, Error>::BeforeContent(
                            self.cp.spec_process(&flat, depth),
                        ),
                    ];
                    let inner = self.content_trace(order, below, chain2);
                    let foot = seq![Position::<Option<DirEntry>, DirEntry, Error>::AfterContent];
                    assert(depths_within(head, lo, hi));
                    assert(depths_within(foot, lo, hi));
                    lemma_depths_within_add(head, inner, lo, hi);
                    lemma_depths_within_add(head + inner, foot, lo, hi);
                },
            }
        }
    }

    /// A record yields entries within the depth limits only.
    pub proof fn lemma_entry_depths(&self, rec: DirEntryRecord, depth: Depth, chain: Seq<Ancestor>)
        requires
            depth <= self.opts.max_depth,
        ensures
            depths_within(
                self.entry_trace(rec, depth, chain),
                self.opts.min_depth,
                self.opts.max_depth,
            ),
        decreases self.opts.max_depth - depth, 1nat, 0nat,
    {
        let lo = self.opts.min_depth;
        let hi = self.opts.max_depth;
        self.lemma_entry_item_depths(rec, depth);
        match rec.flat {
            Err(e) => {
                self.lemma_entry_trace_error(rec, depth, chain);
            },
            Ok(flat) => {
                if flat.is_dir {
                    self.lemma_entry_trace_dir(rec, depth, chain);
                    self.lemma_descend_depths(flat, depth, chain);
                    lemma_depths_within_add(
                        self.pre_trace(rec, depth),
                        self.descend_trace(flat, depth, chain),
                        lo,
                        hi,
                    );
                    lemma_depths_within_add(
                        self.pre_trace(rec, depth) + self.descend_trace(flat, depth, chain),
                        self.post_trace(rec, depth),
                        lo,
                        hi,
                    );
                } else {
                    self.lemma_entry_trace_file(rec, depth, chain);
                }
            },
        }
    }

    /// The records of a directory yield entries within the depth limits
    /// only.
    pub proof fn lemma_content_depths(
        &self,
        recs: Seq<DirEntryRecord>,
        depth: Depth,
        chain: Seq<Ancestor>,
    )
        requires
            depth <= self.opts.max_depth,
        ensures
            depths_within(
                self.content_trace(recs, depth, chain),
                self.opts.min_depth,
                self.opts.max_depth,
            ),
        decreases self.opts.max_depth - depth, 2nat, recs.len(),
    {
        if recs.len() == 0 {
            self.lemma_content_trace_empty(recs, depth, chain);
        } else {
            self.lemma_content_trace_step(recs, depth, chain);
            self.lemma_entry_depths(recs[0], depth, chain);
            self.lemma_content_depths(recs.skip(1), depth, chain);
            lemma_depths_within_add(
                self.entry_trace(recs[0], depth, chain),
                self.content_trace(recs.skip(1), depth, chain),
                self.opts.min_depth,
                self.opts.max_depth,
            );
        }
    }
}

/// A walk yields only entries whose depth lies between the least and the
/// greatest depth of its options; it enters only directories above the
/// greatest depth, and reports errors only down to it.
pub proof fn lemma_walk_depths<E: StorageExt, S: Sorter>(
    fs: E,
    sorter: Option<S>,
    opts: WalkDirOptionsImmut,
    root: String,
)
    ensures
        depths_within(
            crate::trace::walk_trace(fs, DirEntryContentProcessor {  }, sorter, opts, root),
            opts.min_depth,
            opts.max_depth,
        ),
{
    let cp = DirEntryContentProcessor {  };
    if opts.same_file_system && fs.spec_device_num(root@) is Err {
    } else {
        let root_device = if opts.same_file_system {
            Some(fs.spec_device_num(root@)->Ok_0)
        } else {
            None
        };
        let env = Env { fs, cp, sorter, opts, root_device };
        match RawDirEntry::spec_from_path(&env.fs, root) {
            Err(e) => {},
            Ok(raw) => {
                env.lemma_content_depths(
                    crate::dir::spec_visit_order(
                        &env.fs,
                        env.cx(seq![]),
                        0,
                        &env.sorter,
                        seq![Ok(raw)],
                    ),
                    0,
                    seq![],
                );
            },
        }
    }
}

/// The options do nothing but walk: links are not followed, devices not
/// told apart, nothing is filtered or put in order, and entries are yielded
/// from the root on. The greatest depth and the limit of open directories
/// are free, and so is whether directories come before or after their
/// content.
pub open spec fn plain_options(opts: WalkDirOptionsImmut) -> bool {
    &&& !opts.follow_links
    &&& !opts.same_file_system
    &&& opts.content_filter == ContentFilter::NoFilter
    &&& opts.content_order == ContentOrder::Unordered
    &&& opts.min_depth == 0
}

/// The entries among the steps `s`, in order.
pub open spec fn entries_of(s: Seq<ClassicItem>) -> Seq<DirEntry>
    decreases s.len(),
{
    if s.len() == 0 {
        seq![]
    } else {
        match s[0] {
            Position::Entry(d) => seq![d] + entries_of(s.skip(1)),
            _ => entries_of(s.skip(1)),
        }
    }
}

/// The entries among two sequences of steps in a row are those of the
/// first, then those of the second.
pub proof fn lemma_entries_of_add(a: Seq<ClassicItem>, b: Seq<ClassicItem>)
    ensures
        entries_of(a + b) == entries_of(a) + entries_of(b),
    decreases a.len(),
{
    if a.len() == 0 {
        assert(a + b =~= b);
        assert(entries_of(a) + entries_of(b) =~= entries_of(b));
    } else {
        lemma_entries_of_add(a.skip(1), b);
        assert((a + b).skip(1) =~= a.skip(1) + b);
        assert((a + b)[0] == a[0]);
        match a[0] {
            Position::Entry(d) => {
                assert(seq![d] + (entries_of(a.skip(1)) + entries_of(b)) =~= (seq![d] + entries_of(
                    a.skip(1),
                )) + entries_of(b));
            },
            _ => {},
        }
    }
}

/// The tree below the object `raw`, met at `depth`, as a list of entries:
/// the object itself and, if it is a directory above the greatest depth
/// that can be read, the trees below its entries, in the order in which the
/// storage lists them. The object stands before what is below it, or behind
/// it if `contents_first` is set. An entry whose metadata cannot be had is
/// no entry, and a directory that cannot be read has nothing below it.
pub open spec fn subtree<E: StorageExt>(
    fs: &E,
    raw: RawDirEntry,
    is_dir: bool,
    depth: Depth,
    max_depth: usize,
    contents_first: bool,
) -> Seq<DirEntry>
    decreases max_depth - depth, 1nat, 0nat,
{
    let me = DirEntry { raw, is_dir, loop_link: None, depth };
    let inner = if is_dir && depth < max_depth {
        match raw.spec_read_dir(fs) {
            Ok(raws) => forest(fs, raws, (depth + 1) as usize, max_depth, contents_first),
            Err(_) => seq![],
        }
    } else {
        seq![]
    };
    if contents_first {
        inner + seq![me]
    } else {
        seq![me] + inner
    }
}

/// The trees below the objects that a directory lists as `raws`, one
/// after the other.
pub open spec fn forest<E: StorageExt>(
    fs: &E,
    raws: Seq<Result<RawDirEntry, ErrorInner>>,
    depth: Depth,
    max_depth: usize,
    contents_first: bool,
) -> Seq<DirEntry>
    decreases max_depth - depth, 2nat, raws.len(),
{
    if raws.len() == 0 {
        seq![]
    } else {
        (match raws[0] {
            Ok(raw) => subtree(
                fs,
                raw,
                raw.metadata.file_type is Dir,
                depth,
                max_depth,
                contents_first,
            ),
            Err(_) => seq![],
        }) + forest(fs, raws.skip(1), depth, max_depth, contents_first)
    }
}

/// Whether the root of a walk is a directory to walk into: a root that is
/// a symbolic link counts as what it leads to.
pub open spec fn root_is_dir<E: StorageExt>(fs: &E, raw: RawDirEntry) -> Result<bool, ErrorInner> {
    if raw.metadata.file_type is Symlink {
        match fs.spec_metadata(raw.path@, true) {
            Ok(md) => Ok(md.file_type is Dir),
            Err(e) => Err(ErrorInner::Io { path: Some(raw.path), err: e }),
        }
    } else {
        Ok(raw.metadata.file_type is Dir)
    }
}

impl<E: StorageExt, S: Sorter> Env<E, DirEntryContentProcessor, S> {
    /// With plain options an entry yields the tree below it.
    pub proof fn lemma_plain_entry(&self, flat: FlatDirEntry, depth: Depth, chain: Seq<Ancestor>)
        requires
            plain_options(self.opts),
            self.sorter is None,
            depth <= self.opts.max_depth,
            flat.loop_link is None,
        ensures
            entries_of(
                self.entry_trace(
                    DirEntryRecord::spec_from_flat(self.opts, Ok(flat)),
                    depth,
                    chain,
                ),
            ) == subtree(
                &self.fs,
                flat.raw,
                flat.is_dir,
                depth,
                self.opts.max_depth,
                self.opts.contents_first,
            ),
        decreases self.opts.max_depth - depth, 1nat, 0nat,
    {
        let rec = DirEntryRecord::spec_from_flat(self.opts, Ok(flat));
        let me = DirEntry { raw: flat.raw, is_dir: flat.is_dir, loop_link: None, depth };
        let own = seq![Position::<Option<DirEntry>, DirEntry, Error>::Entry(me)];
        assert(self.entry_item(rec, depth) == own);
        assert(entries_of(own) =~= seq![me]) by {
            assert(own.skip(1).len() == 0);
            assert(entries_of(own.skip(1)) =~= seq![]);
        }
        let none = Seq::<ClassicItem>::empty();
        assert(entries_of(none) =~= seq![]);
        if flat.is_dir {
            self.lemma_entry_trace_dir(rec, depth, chain);
            self.lemma_descend_trace(flat, depth, chain);
            let descend = self.descend_trace(flat, depth, chain);
            let inner = if depth < self.opts.max_depth {
                match flat.raw.spec_read_dir(&self.fs) {
                    Ok(raws) => forest(
                        &self.fs,
                        raws,
                        (depth + 1) as usize,
                        self.opts.max_depth,
                        self.opts.contents_first,
                    ),
                    Err(_) => seq![],
                }
            } else {
                seq![]
            };
            assert(entries_of(descend) == inner) by {
                if depth < self.opts.max_depth {
                    match flat.raw.spec_read_dir(&self.fs) {
                        Ok(raws) => {
                            let below = (depth + 1) as usize;
                            self.lemma_plain_content(raws, below, chain);
                            let head = seq![
                                Position::<Option<DirEntry>, DirEntry, Error>::BeforeContent(
                                    self.cp.spec_process(&flat, depth),
                                ),
                            ];
                            let foot = seq![
                                Position::<Option<DirEntry>, DirEntry, Error>::AfterContent,
                            ];
                            let mid = self.content_trace(
                                crate::dir::spec_visit_order(
                                    &self.fs,
                                    self.cx(chain),
                                    below,
                                    &self.sorter,
                                    raws,
                                ),
                                below,
                                chain,
                            );
                            assert(descend == head + mid + foot);
                            assert(entries_of(head) =~= seq![]) by {
                                assert(head.skip(1).len() == 0);
                                assert(entries_of(head.skip(1)) =~= seq![]);
                            }
                            assert(entries_of(foot) =~= seq![]) by {
                                assert(foot.skip(1).len() == 0);
                                assert(entries_of(foot.skip(1)) =~= seq![]);
                            }
                            lemma_entries_of_add(head, mid);
                            lemma_entries_of_add(head + mid, foot);
                            assert(entries_of(descend) =~= entries_of(mid));
                        },
                        Err(e) => {
                            let only = seq![
                                Position::<Option<DirEntry>, DirEntry, Error>::Error(
                                    Error { depth, inner: e },
                                ),
                            ];
                            assert(descend == only);
                            assert(entries_of(only) =~= seq![]) by {
                                assert(only.skip(1).len() == 0);
                                assert(entries_of(only.skip(1)) =~= seq![]);
                            }
                        },
                    }
                }
            }
            let pre = self.pre_trace(rec, depth);
            let post = self.post_trace(rec, depth);
            lemma_entries_of_add(pre, descend);
            lemma_entries_of_add(pre + descend, post);
            if self.opts.contents_first {
                assert(entries_of(pre + descend + post) =~= inner + seq![me]);
            } else {
                assert(entries_of(pre + descend + post) =~= seq![me] + inner);
            }
        } else {
            self.lemma_entry_trace_file(rec, depth, chain);
            assert(subtree(
                &self.fs,
                flat.raw,
                flat.is_dir,
                depth,
                self.opts.max_depth,
                self.opts.contents_first,
            ) =~= seq![me]);
        }
    }

    /// With plain options the content of a directory yields the trees
    /// below its entries, one after the other.
    pub proof fn lemma_plain_content(
        &self,
        raws: Seq<Result<RawDirEntry, ErrorInner>>,
        depth: Depth,
        chain: Seq<Ancestor>,
    )
        requires
            plain_options(self.opts),
            self.sorter is None,
            1 <= depth <= self.opts.max_depth,
        ensures
            entries_of(
                self.content_trace(
                    crate::dir::spec_visit_order(
                        &self.fs,
                        self.cx(chain),
                        depth,
                        &self.sorter,
                        raws,
                    ),
                    depth,
                    chain,
                ),
            ) == forest(&self.fs, raws, depth, self.opts.max_depth, self.opts.contents_first),
        decreases self.opts.max_depth - depth, 2nat, raws.len(),
    {
        let cx = self.cx(chain);
        let order = crate::dir::spec_visit_order(&self.fs, cx, depth, &self.sorter, raws);
        if raws.len() == 0 {
            assert(order =~= seq![]);
            self.lemma_content_trace_empty(order, depth, chain);
            assert(entries_of(Seq::<ClassicItem>::empty()) =~= seq![]);
        } else {
            let rest = raws.skip(1);
            let rest_order = crate::dir::spec_visit_order(&self.fs, cx, depth, &self.sorter, rest);
            let rec = DirEntryRecord::spec_new(&self.fs, cx, depth, raws[0])->Some_0;
            assert(DirEntryRecord::spec_new(&self.fs, cx, depth, raws[0]) is Some);
            let recs = DirEntryRecord::records_of(&self.fs, cx, depth, raws);
            let rest_recs = DirEntryRecord::records_of(&self.fs, cx, depth, rest);
            assert(recs == seq![rec] + rest_recs);
            assert(recs.skip(1) =~= rest_recs);
            assert(crate::dir::accepts(DirPass::Entire, rec));
            assert(order =~= seq![rec] + rest_order);
            assert(order.skip(1) =~= rest_order);
            self.lemma_content_trace_step(order, depth, chain);
            self.lemma_plain_content(rest, depth, chain);
            lemma_entries_of_add(
                self.entry_trace(rec, depth, chain),
                self.content_trace(rest_order, depth, chain),
            );
            match raws[0] {
                Ok(raw) => {
                    let flat = FlatDirEntry {
                        raw,
                        is_dir: raw.metadata.file_type is Dir,
                        loop_link: None,
                    };
                    assert(rec == DirEntryRecord::spec_from_flat(self.opts, Ok(flat)));
                    self.lemma_plain_entry(flat, depth, chain);
                },
                Err(e) => {
                    self.lemma_entry_trace_error(rec, depth, chain);
                    let only = self.entry_trace(rec, depth, chain);
                    assert(entries_of(only) =~= seq![]) by {
                        assert(only.skip(1).len() == 0);
                        assert(entries_of(only.skip(1)) =~= seq![]);
                    }
                },
            }
        }
    }
}

/// A walk with plain options yields the tree below its root, each entry
/// once: every object that can be reached from the root through
/// directories that can be read, without following a symbolic link (but
/// for the root itself), down to the greatest depth. Each directory stands
/// before all that is below it; with `contents_first` it stands behind
/// all that is below it.
pub proof fn lemma_walk_visits_tree<E: StorageExt, S: Sorter>(
    fs: E,
    opts: WalkDirOptionsImmut,
    root: String,
)
    requires
        plain_options(opts),
    ensures
        entries_of(
            crate::trace::walk_trace(
                fs,
                DirEntryContentProcessor {  },
                None::<S>,
                opts,
                root,
            ),
        ) == match RawDirEntry::spec_from_path(&fs, root) {
            Err(_) => Seq::<DirEntry>::empty(),
            Ok(raw) => match root_is_dir(&fs, raw) {
                Err(_) => Seq::<DirEntry>::empty(),
                Ok(is_dir) => subtree(&fs, raw, is_dir, 0, opts.max_depth, opts.contents_first),
            },
        },
{
    let cp = DirEntryContentProcessor {  };
    let env = Env { fs, cp, sorter: None::<S>, opts, root_device: None };
    let trace = crate::trace::walk_trace(fs, cp, None::<S>, opts, root);
    let none = Seq::<ClassicItem>::empty();
    assert(entries_of(none) =~= seq![]);
    match RawDirEntry::spec_from_path(&fs, root) {
        Err(e) => {
            assert(entries_of(trace) =~= seq![]) by {
                assert(trace.skip(1).len() == 0);
                assert(entries_of(trace.skip(1)) =~= seq![]);
            }
        },
        Ok(raw) => {
            let cx = env.cx(seq![]);
            let raws = seq![Ok::<RawDirEntry, ErrorInner>(raw)];
            let order = crate::dir::spec_visit_order(&env.fs, cx, 0, &env.sorter, raws);
            let rec = DirEntryRecord::spec_new(&env.fs, cx, 0, raws[0])->Some_0;
            assert(DirEntryRecord::spec_new(&env.fs, cx, 0, raws[0]) is Some);
            let recs = DirEntryRecord::records_of(&env.fs, cx, 0, raws);
            assert(raws.skip(1).len() == 0);
            assert(DirEntryRecord::records_of(&env.fs, cx, 0, raws.skip(1)) =~= seq![]);
            assert(recs =~= seq![rec]);
            assert(crate::dir::accepts(DirPass::Entire, rec));
            assert(recs.skip(1) =~= seq![]);
            assert(crate::dir::select(recs.skip(1), DirPass::Entire) =~= seq![]);
            assert(order =~= seq![rec]);
            env.lemma_content_trace_step(order, 0, seq![]);
            env.lemma_content_trace_empty(order.skip(1), 0, seq![]);
            assert(trace =~= env.entry_trace(rec, 0, seq![]));
            match root_is_dir(&fs, raw) {
                Err(e) => {
                    env.lemma_entry_trace_error(rec, 0, seq![]);
                    assert(entries_of(trace) =~= seq![]) by {
                        assert(trace.skip(1).len() == 0);
                        assert(entries_of(trace.skip(1)) =~= seq![]);
                    }
                },
                Ok(is_dir) => {
                    let flat = FlatDirEntry { raw, is_dir, loop_link: None };
                    assert(rec == DirEntryRecord::spec_from_flat(opts, Ok(flat)));
                    env.lemma_plain_entry(flat, 0, seq![]);
                },
            }
        },
    }
}

/// A walk with the options that a builder starts with yields the tree
/// below its root, each entry once, each directory before all that is
/// below it.
pub proof fn lemma_default_walk_visits_tree<E: StorageExt, S: Sorter>(fs: E, root: String)
    ensures
        entries_of(
            crate::trace::walk_trace(
                fs,
                DirEntryContentProcessor {  },
                None::<S>,
                WalkDirOptionsImmut::spec_default(),
                root,
            ),
        ) == match RawDirEntry::spec_from_path(&fs, root) {
            Err(_) => Seq::<DirEntry>::empty(),
            Ok(raw) => match root_is_dir(&fs, raw) {
                Err(_) => Seq::<DirEntry>::empty(),
                Ok(is_dir) => subtree(&fs, raw, is_dir, 0, usize::MAX, false),
            },
        },
{
    lemma_walk_visits_tree::<E, S>(fs, WalkDirOptionsImmut::spec_default(), root);
}

/// The options `opts` with another limit of open directories.
pub open spec fn with_max_open(opts: WalkDirOptionsImmut, max_open: usize) -> WalkDirOptionsImmut {
    WalkDirOptionsImmut { max_open, ..opts }
}

impl<E: StorageExt, CP: ContentProcessor, S: Sorter> Env<E, CP, S> {
    /// This walk with another limit of open directories.
    pub open spec fn with_max_open(self, max_open: usize) -> Self {
        Env { opts: with_max_open(self.opts, max_open), ..self }
    }

    /// The records of a directory do not depend on the limit of open
    /// directories.
    pub proof fn lemma_records_max_open(
        self,
        max_open: usize,
        chain: Seq<Ancestor>,
        depth: Depth,
        raws: Seq<Result<RawDirEntry, ErrorInner>>,
    )
        ensures
            DirEntryRecord::records_of(&self.fs, self.cx(chain), depth, raws)
                == DirEntryRecord::records_of(
                &self.fs,
                self.with_max_open(max_open).cx(chain),
                depth,
                raws,
            ),
        decreases raws.len(),
    {
        if raws.len() > 0 {
            self.lemma_records_max_open(max_open, chain, depth, raws.skip(1));
        }
    }

    /// What going into a directory yields does not depend on the limit of
    /// open directories.
    pub proof fn lemma_descend_max_open(
        self,
        max_open: usize,
        flat: FlatDirEntry,
        depth: Depth,
        chain: Seq<Ancestor>,
    )
        ensures
            self.descend_trace(flat, depth, chain) == self.with_max_open(max_open).descend_trace(
                flat,
                depth,
                chain,
            ),
        decreases self.opts.max_depth - depth, 0nat, 0nat,
    {
        let other = self.with_max_open(max_open);
        self.lemma_descend_trace(flat, depth, chain);
        other.lemma_descend_trace(flat, depth, chain);
        if depth < self.opts.max_depth && flat.loop_link is None {
            match self.open_dir(flat, chain) {
                Err(e) => {},
                Ok((raws, chain2)) => {
                    let below = (depth + 1) as usize;
                    self.lemma_records_max_open(max_open, chain2, below, raws);
                    let order = crate::dir::spec_visit_order(
                        &self.fs,
                        self.cx(chain2),
                        below,
                        &self.sorter,
                        raws,
                    );
                    self.lemma_content_max_open(max_open, order, below, chain2);
                },
            }
        }
    }

    /// What a record yields does not depend on the limit of open
    /// directories.
    pub proof fn lemma_entry_max_open(
        self,
        max_open: usize,
        rec: DirEntryRecord,
        depth: Depth,
        chain: Seq<Ancestor>,
    )
        ensures
            self.entry_trace(rec, depth, chain) == self.with_max_open(max_open).entry_trace(
                rec,
                depth,
                chain,
            ),
        decreases self.opts.max_depth - depth, 1nat, 0nat,
    {
        let other = self.with_max_open(max_open);
        match rec.flat {
            Err(e) => {
                self.lemma_entry_trace_error(rec, depth, chain);
                other.lemma_entry_trace_error(rec, depth, chain);
            },
            Ok(flat) => {
                if flat.is_dir {
                    self.lemma_entry_trace_dir(rec, depth, chain);
                    other.lemma_entry_trace_dir(rec, depth, chain);
                    self.lemma_descend_max_open(max_open, flat, depth, chain);
                } else {
                    self.lemma_entry_trace_file(rec, depth, chain);
                    other.lemma_entry_trace_file(rec, depth, chain);
                }
            },
        }
    }

    /// What the records of a directory yield does not depend on the limit
    /// of open directories.
    pub proof fn lemma_content_max_open(
        self,
        max_open: usize,
        recs: Seq<DirEntryRecord>,
        depth: Depth,
        chain: Seq<Ancestor>,
    )
        ensures
            self.content_trace(recs, depth, chain) == self.with_max_open(max_open).content_trace(
                recs,
                depth,
                chain,
            ),
        decreases self.opts.max_depth - depth, 2nat, recs.len(),
    {
        let other = self.with_max_open(max_open);
        if recs.len() == 0 {
            self.lemma_content_trace_empty(recs, depth, chain);
            other.lemma_content_trace_empty(recs, depth, chain);
        } else {
            self.lemma_content_trace_step(recs, depth, chain);
            other.lemma_content_trace_step(recs, depth, chain);
            self.lemma_entry_max_open(max_open, recs[0], depth, chain);
            self.lemma_content_max_open(max_open, recs.skip(1), depth, chain);
        }
    }
}

/// What a walk yields does not depend on how many directories it may hold
/// open: the limit decides when a directory is read, never what is
/// yielded, nor in which order.
pub proof fn lemma_walk_max_open<E: StorageExt, CP: ContentProcessor, S: Sorter>(
    fs: E,
    cp: CP,
    sorter: Option<S>,
    opts: WalkDirOptionsImmut,
    root: String,
    max_open: usize,
)
    ensures
        crate::trace::walk_trace(fs, cp, sorter, opts, root) == crate::trace::walk_trace(
            fs,
            cp,
            sorter,
            with_max_open(opts, max_open),
            root,
        ),
{
    if opts.same_file_system && fs.spec_device_num(root@) is Err {
    } else {
        let root_device = if opts.same_file_system {
            Some(fs.spec_device_num(root@)->Ok_0)
        } else {
            None
        };
        let env = Env { fs, cp, sorter, opts, root_device };
        let other = Env { fs, cp, sorter, opts: with_max_open(opts, max_open), root_device };
        assert(other == env.with_max_open(max_open));
        match RawDirEntry::spec_from_path(&env.fs, root) {
            Err(e) => {},
            Ok(raw) => {
                let raws = seq![Ok::<RawDirEntry, ErrorInner>(raw)];
                env.lemma_records_max_open(max_open, seq![], 0, raws);
                env.lemma_content_max_open(
                    max_open,
                    crate::dir::spec_visit_order(&env.fs, env.cx(seq![]), 0, &env.sorter, raws),
                    0,
                    seq![],
                );
            },
        }
    }
}

/// Two walks that start from the same root of the same storage with the
/// same options, sorter and processor yield the same steps in the same
/// order: walking again changes nothing.
pub proof fn lemma_same_walk_same_steps<E: StorageExt, CP: ContentProcessor, S: Sorter>(
    a: WalkDirIterator<E, CP, S>,
    b: WalkDirIterator<E, CP, S>,
)
    requires
        a.start is Some,
        a.start == b.start,
        a.fs == b.fs,
        a.content_processor == b.content_processor,
        a.opts == b.opts,
    ensures
        a.remaining() == b.remaining(),
{
}

/// Two walks that start from the same root of the same storage and differ
/// in nothing but the limit of open directories yield the same steps in the
/// same order.
pub proof fn lemma_same_walk_any_max_open<E: StorageExt, CP: ContentProcessor, S: Sorter>(
    a: WalkDirIterator<E, CP, S>,
    b: WalkDirIterator<E, CP, S>,
)
    requires
        a.start is Some,
        a.start == b.start,
        a.fs == b.fs,
        a.content_processor == b.content_processor,
        a.opts.sorter == b.opts.sorter,
        b.opts.immut == with_max_open(a.opts.immut, b.opts.immut.max_open),
    ensures
        a.remaining() == b.remaining(),
{
    lemma_walk_max_open(
        a.fs,
        a.content_processor,
        a.opts.sorter,
        a.opts.immut,
        a.start->Some_0,
        b.opts.immut.max_open,
    );
}

} // verus!
