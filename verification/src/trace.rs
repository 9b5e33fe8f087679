//! What a walk yields, as a sequence: the mathematical description that
//! the iterator is held to.
//!
//! The description follows the tree, not the machine. A directory entry
//! gives its own entry (before or after its content), and between them what
//! comes of going into it: nothing below the depth limit, an error where it
//! cannot be opened or closes a loop, else its content between the marks of
//! entering and leaving. The content of a directory is what its records
//! give, one after the other, in the order of visiting.
use vstd::prelude::*;
use crate::classify::{Ancestor, Cx};
use crate::cp::ContentProcessor;
use crate::dir::{DirEntryRecord, FlatDirEntry};
use crate::error::{Error, ErrorInner};
use crate::opts::WalkDirOptionsImmut;
use crate::rawdent::RawDirEntry;
use crate::sort::Sorter;
use crate::storage::StorageExt;
use crate::wd::{Depth, DeviceNum, Position};

verus! {

/// What a walk yields at each step: the mark of entering a directory with
/// the item of that directory (`None` if the processor suppresses it), an
/// item, an error, or the mark of leaving a directory.
pub type WalkDirIteratorItem<CP> = Position<
    Option<<CP as ContentProcessor>::Item>,
    <CP as ContentProcessor>::Item,
    Error,
>;

/// All that a walk depends on, once it has started.
pub struct Env<E, CP, S> {
    pub fs: E,
    pub cp: CP,
    pub sorter: Option<S>,
    pub opts: WalkDirOptionsImmut,
    /// The device of the root, where the walk stays on one file system.
    pub root_device: Option<DeviceNum>,
}

impl<E: StorageExt, CP: ContentProcessor, S: Sorter> Env<E, CP, S> {
    /// What classification depends on, for entries below the directories
    /// of `chain`.
    pub open spec fn cx(&self, chain: Seq<Ancestor>) -> Cx {
        Cx { opts: self.opts, root_device: self.root_device, chain }
    }

    /// May the entry `flat`, met at `depth`, be yielded? Not if the filter
    /// hides it, not above the least depth, and a link that closes a loop
    /// only if such links are asked for.
    pub open spec fn allow_yield(&self, rec: DirEntryRecord, depth: Depth) -> bool {
        &&& rec.flat is Ok
        &&& !rec.hidden
        &&& depth >= self.opts.min_depth
        &&& rec.flat->Ok_0.loop_link is Some ==> self.opts.yield_loop_links
    }

    /// The entry of a record as the walk yields it: one item, or nothing
    /// where the entry may not be yielded or the processor suppresses it.
    pub open spec fn entry_item(&self, rec: DirEntryRecord, depth: Depth) -> Seq<
        WalkDirIteratorItem<CP>,
    > {
        if self.allow_yield(rec, depth) {
            match self.cp.spec_process(&rec.flat->Ok_0, depth) {
                Some(item) => seq![Position::Entry(item)],
                None => seq![],
            }
        } else {
            seq![]
        }
    }

    /// What a directory yields before its content: its entry, unless the
    /// content comes first.
    pub open spec fn pre_trace(&self, rec: DirEntryRecord, depth: Depth) -> Seq<
        WalkDirIteratorItem<CP>,
    > {
        if !self.opts.contents_first {
            self.entry_item(rec, depth)
        } else {
            seq![]
        }
    }

    /// What a directory yields after its content: its entry, if the
    /// content comes first.
    pub open spec fn post_trace(&self, rec: DirEntryRecord, depth: Depth) -> Seq<
        WalkDirIteratorItem<CP>,
    > {
        if self.opts.contents_first {
            self.entry_item(rec, depth)
        } else {
            seq![]
        }
    }

    /// What opening the directory `flat` gives: its raw entries and the
    /// chain of directories that they are checked against; or the error of
    /// opening it or of taking its handle.
    pub open spec fn open_dir(&self, flat: FlatDirEntry, chain: Seq<Ancestor>) -> Result<
        (Seq<Result<RawDirEntry, ErrorInner>>, Seq<Ancestor>),
        ErrorInner,
    > {
        match flat.raw.spec_read_dir(&self.fs) {
            Err(e) => Err(e),
            Ok(raws) => if self.opts.follow_links {
                match Ancestor::spec_new(&self.fs, &flat.raw) {
                    Err(e) => Err(e),
                    Ok(a) => Ok((raws, chain.push(a))),
                }
            } else {
                Ok((raws, chain))
            },
        }
    }

    /// What going into the directory `flat`, an entry at `depth`, yields.
    #[verifier::opaque]
    pub open spec fn descend_trace(
        &self,
        flat: FlatDirEntry,
        depth: Depth,
        chain: Seq<Ancestor>,
    ) -> Seq<WalkDirIteratorItem<CP>>
        decreases self.opts.max_depth - depth, 0nat, 0nat,
    {
        if depth < self.opts.max_depth {
            match flat.loop_link {
                Some(index) => if !self.opts.yield_loop_links {
                    seq![
                        Position::Error(
                            Error { depth, inner: spec_loop_error(chain, index, flat.raw.path) },
                        ),
                    ]
                } else {
                    seq![]
                },
                None => match self.open_dir(flat, chain) {
                    Err(e) => seq![Position::Error(Error { depth, inner: e })],
                    Ok((raws, chain2)) => {
                        let below = (depth + 1) as usize;
                        seq![Position::BeforeContent(self.cp.spec_process(&flat, depth))]
                            + self.content_trace(
                            crate::dir::spec_visit_order(
                                &self.fs,
                                self.cx(chain2),
                                below,
                                &self.sorter,
                                raws,
                            ),
                            below,
                            chain2,
                        ) + seq![Position::AfterContent]
                    },
                },
            }
        } else {
            seq![]
        }
    }

    /// What one record, met at `depth`, yields.
    #[verifier::opaque]
    pub open spec fn entry_trace(
        &self,
        rec: DirEntryRecord,
        depth: Depth,
        chain: Seq<Ancestor>,
    ) -> Seq<WalkDirIteratorItem<CP>>
        decreases self.opts.max_depth - depth, 1nat, 0nat,
    {
        match rec.flat {
            Err(e) => seq![Position::Error(Error { depth, inner: e })],
            Ok(flat) => if flat.is_dir {
                self.pre_trace(rec, depth) + self.descend_trace(flat, depth, chain)
                    + self.post_trace(rec, depth)
            } else {
                self.entry_item(rec, depth)
            },
        }
    }

    /// What the records `recs` of one directory, visited in this order at
    /// `depth`, yield.
    #[verifier::opaque]
    pub open spec fn content_trace(
        &self,
        recs: Seq<DirEntryRecord>,
        depth: Depth,
        chain: Seq<Ancestor>,
    ) -> Seq<WalkDirIteratorItem<CP>>
        decreases self.opts.max_depth - depth, 2nat, recs.len(),
    {
        if recs.len() == 0 {
            seq![]
        } else {
            self.entry_trace(recs[0], depth, chain) + self.content_trace(
                recs.skip(1),
                depth,
                chain,
            )
        }
    }
}

impl<E: StorageExt, CP: ContentProcessor, S: Sorter> Env<E, CP, S> {
    /// No records yield nothing.
    pub proof fn lemma_content_trace_empty(
        &self,
        recs: Seq<DirEntryRecord>,
        depth: Depth,
        chain: Seq<Ancestor>,
    )
        requires
            recs.len() == 0,
        ensures
            self.content_trace(recs, depth, chain) == Seq::<WalkDirIteratorItem<CP>>::empty(),
    {
        reveal(Env::content_trace);
    }

    /// Records yield what the first of them yields, then what the others
    /// yield.
    pub proof fn lemma_content_trace_step(
        &self,
        recs: Seq<DirEntryRecord>,
        depth: Depth,
        chain: Seq<Ancestor>,
    )
        requires
            recs.len() > 0,
        ensures
            self.content_trace(recs, depth, chain) == self.entry_trace(recs[0], depth, chain)
                + self.content_trace(recs.skip(1), depth, chain),
    {
        reveal(Env::content_trace);
        reveal(Env::entry_trace);
        reveal(Env::descend_trace);
    }

    /// A record that holds an error yields the error, at the depth of its
    /// directory.
    pub proof fn lemma_entry_trace_error(
        &self,
        rec: DirEntryRecord,
        depth: Depth,
        chain: Seq<Ancestor>,
    )
        requires
            rec.flat is Err,
        ensures
            self.entry_trace(rec, depth, chain) == seq![
                Position::<Option<CP::Item>, CP::Item, Error>::Error(
                    Error { depth, inner: rec.flat->Err_0 },
                ),
            ],
    {
        reveal(Env::entry_trace);
    }

    /// A record that holds an entry which is no directory yields the entry.
    pub proof fn lemma_entry_trace_file(
        &self,
        rec: DirEntryRecord,
        depth: Depth,
        chain: Seq<Ancestor>,
    )
        requires
            rec.flat is Ok,
            !rec.flat->Ok_0.is_dir,
        ensures
            self.entry_trace(rec, depth, chain) == self.entry_item(rec, depth),
    {
        reveal(Env::entry_trace);
    }

    /// A record that holds a directory yields its entry before or after
    /// what going into it yields.
    pub proof fn lemma_entry_trace_dir(
        &self,
        rec: DirEntryRecord,
        depth: Depth,
        chain: Seq<Ancestor>,
    )
        requires
            rec.flat is Ok,
            rec.flat->Ok_0.is_dir,
        ensures
            self.entry_trace(rec, depth, chain) == self.pre_trace(rec, depth) + self.descend_trace(
                rec.flat->Ok_0,
                depth,
                chain,
            ) + self.post_trace(rec, depth),
    {
        reveal(Env::content_trace);
        reveal(Env::entry_trace);
        reveal(Env::descend_trace);
    }

    /// What going into a directory yields, case by case.
    pub proof fn lemma_descend_trace(&self, flat: FlatDirEntry, depth: Depth, chain: Seq<Ancestor>)
        ensures
            depth >= self.opts.max_depth ==> self.descend_trace(flat, depth, chain) == Seq::<
                WalkDirIteratorItem<CP>,
            >::empty(),
            depth < self.opts.max_depth && flat.loop_link is Some && self.opts.yield_loop_links
                ==> self.descend_trace(flat, depth, chain) == Seq::<
                WalkDirIteratorItem<CP>,
            >::empty(),
            depth < self.opts.max_depth && flat.loop_link is Some && !self.opts.yield_loop_links
                ==> self.descend_trace(flat, depth, chain) == seq![
                Position::<Option<CP::Item>, CP::Item, Error>::Error(
                    Error {
                        depth,
                        inner: spec_loop_error(chain, flat.loop_link->Some_0, flat.raw.path),
                    },
                ),
            ],
            depth < self.opts.max_depth && flat.loop_link is None ==> self.descend_trace(
                flat,
                depth,
                chain,
            ) == match self.open_dir(flat, chain) {
                Err(e) => seq![
                    Position::<Option<CP::Item>, CP::Item, Error>::Error(Error { depth, inner: e }),
                ],
                Ok((raws, chain2)) => seq![
                    Position::<Option<CP::Item>, CP::Item, Error>::BeforeContent(
                        self.cp.spec_process(&flat, depth),
                    ),
                ] + self.content_trace(
                    crate::dir::spec_visit_order(
                        &self.fs,
                        self.cx(chain2),
                        (depth + 1) as usize,
                        &self.sorter,
                        raws,
                    ),
                    (depth + 1) as usize,
                    chain2,
                ) + seq![Position::<Option<CP::Item>, CP::Item, Error>::AfterContent],
            },
    {
        reveal(Env::content_trace);
        reveal(Env::entry_trace);
        reveal(Env::descend_trace);
    }
}

/// The error that reports the link `child` as leading back to the
/// directory with the index `index` on `chain`.
pub open spec fn spec_loop_error(chain: Seq<Ancestor>, index: usize, child: String) -> ErrorInner {
    ErrorInner::Loop { ancestor: chain[index as int].path, child }
}

/// All that a walk from `root` yields, from its first step to its last.
pub open spec fn walk_trace<E: StorageExt, CP: ContentProcessor, S: Sorter>(
    fs: E,
    cp: CP,
    sorter: Option<S>,
    opts: WalkDirOptionsImmut,
    root: String,
) -> Seq<WalkDirIteratorItem<CP>> {
    let device = if opts.same_file_system {
        match fs.spec_device_num(root@) {
            Ok(d) => Ok(Some(d)),
            Err(e) => Err(ErrorInner::Io { path: Some(root), err: e }),
        }
    } else {
        Ok(None)
    };
    match device {
        Err(e) => seq![Position::Error(Error { depth: 0, inner: e })],
        Ok(root_device) => {
            let env = Env { fs, cp, sorter, opts, root_device };
            match RawDirEntry::spec_from_path(&env.fs, root) {
                Err(e) => seq![Position::Error(Error { depth: 0, inner: e })],
                Ok(raw) => env.content_trace(
                    crate::dir::spec_visit_order(
                        &env.fs,
                        env.cx(seq![]),
                        0,
                        &env.sorter,
                        seq![Ok(raw)],
                    ),
                    0,
                    seq![],
                ),
            }
        },
    }
}

/// What is left of the steps `s` behind the directory that is open at
/// their start: the steps from the mark that leaves that directory on.
/// `open` counts the directories that were entered on the way. Nothing is
/// left where no such mark comes.
pub open spec fn skip_to_close<CP: ContentProcessor>(
    s: Seq<WalkDirIteratorItem<CP>>,
    open: nat,
) -> Seq<WalkDirIteratorItem<CP>>
    decreases s.len(),
{
    if s.len() == 0 {
        s
    } else {
        match s[0] {
            Position::BeforeContent(_) => skip_to_close::<CP>(s.skip(1), open + 1),
            Position::AfterContent => if open == 0 {
                s
            } else {
                skip_to_close::<CP>(s.skip(1), (open - 1) as nat)
            },
            _ => skip_to_close::<CP>(s.skip(1), open),
        }
    }
}

/// What is left behind a directory is no longer than what it is left of.
pub proof fn lemma_skip_to_close_len<CP: ContentProcessor>(
    s: Seq<WalkDirIteratorItem<CP>>,
    open: nat,
)
    ensures
        skip_to_close::<CP>(s, open).len() <= s.len(),
    decreases s.len(),
{
    if s.len() > 0 {
        match s[0] {
            Position::BeforeContent(_) => {
                lemma_skip_to_close_len::<CP>(s.skip(1), open + 1);
            },
            Position::AfterContent => {
                if open > 0 {
                    lemma_skip_to_close_len::<CP>(s.skip(1), (open - 1) as nat);
                }
            },
            _ => {
                lemma_skip_to_close_len::<CP>(s.skip(1), open);
            },
        }
    }
}

/// The steps `x` enter no directory that they do not leave, and leave none
/// that they did not enter: whatever follows them, what is left behind the
/// directory that is open at their start is what is left behind it after
/// them.
pub open spec fn balanced<CP: ContentProcessor>(x: Seq<WalkDirIteratorItem<CP>>) -> bool {
    forall|y: Seq<WalkDirIteratorItem<CP>>, open: nat| #[trigger]
        skip_to_close::<CP>(x + y, open) == skip_to_close::<CP>(y, open)
}

/// Steps that enter and leave no directory at all are balanced.
pub proof fn lemma_balanced_flat<CP: ContentProcessor>(x: Seq<WalkDirIteratorItem<CP>>)
    requires
        forall|i: int|
            0 <= i < x.len() ==> !((#[trigger] x[i]) is BeforeContent) && !(x[i] is AfterContent),
    ensures
        balanced::<CP>(x),
    decreases x.len(),
{
    assert forall|y: Seq<WalkDirIteratorItem<CP>>, open: nat| #[trigger]
        skip_to_close::<CP>(x + y, open) == skip_to_close::<CP>(y, open) by {
        if x.len() == 0 {
            assert(x + y =~= y);
        } else {
            lemma_balanced_flat::<CP>(x.skip(1));
            assert((x + y).skip(1) =~= x.skip(1) + y);
            assert((x + y)[0] == x[0]);
            assert(skip_to_close::<CP>(x.skip(1) + y, open) == skip_to_close::<CP>(y, open));
        }
    }
}

/// Balanced steps in a row are balanced.
pub proof fn lemma_balanced_add<CP: ContentProcessor>(
    a: Seq<WalkDirIteratorItem<CP>>,
    b: Seq<WalkDirIteratorItem<CP>>,
)
    requires
        balanced::<CP>(a),
        balanced::<CP>(b),
    ensures
        balanced::<CP>(a + b),
{
    assert forall|y: Seq<WalkDirIteratorItem<CP>>, open: nat| #[trigger]
        skip_to_close::<CP>((a + b) + y, open) == skip_to_close::<CP>(y, open) by {
        assert((a + b) + y =~= a + (b + y));
        assert(skip_to_close::<CP>(a + (b + y), open) == skip_to_close::<CP>(b + y, open));
        assert(skip_to_close::<CP>(b + y, open) == skip_to_close::<CP>(y, open));
    }
}

/// Balanced steps between the marks of entering and leaving a directory
/// are balanced.
pub proof fn lemma_balanced_wrap<CP: ContentProcessor>(
    item: Option<CP::Item>,
    inner: Seq<WalkDirIteratorItem<CP>>,
)
    requires
        balanced::<CP>(inner),
    ensures
        balanced::<CP>(
            seq![Position::<Option<CP::Item>, CP::Item, Error>::BeforeContent(item)] + inner
                + seq![Position::<Option<CP::Item>, CP::Item, Error>::AfterContent],
        ),
{
    let head = seq![Position::<Option<CP::Item>, CP::Item, Error>::BeforeContent(item)];
    let foot = seq![Position::<Option<CP::Item>, CP::Item, Error>::AfterContent];
    let x = head + inner + foot;
    assert forall|y: Seq<WalkDirIteratorItem<CP>>, open: nat| #[trigger]
        skip_to_close::<CP>(x + y, open) == skip_to_close::<CP>(y, open) by {
        assert((x + y).skip(1) =~= inner + (foot + y));
        assert((x + y)[0] == head[0]);
        assert(skip_to_close::<CP>(x + y, open) == skip_to_close::<CP>(
            inner + (foot + y),
            open + 1,
        ));
        assert(skip_to_close::<CP>(inner + (foot + y), open + 1) == skip_to_close::<CP>(
            foot + y,
            open + 1,
        ));
        assert((foot + y).skip(1) =~= y);
        assert((foot + y)[0] == foot[0]);
    }
}

/// Looking for the mark that leaves the directory open at the start, and
/// from there for the mark that leaves `n` directories more, is looking for
/// the mark that leaves them all.
pub proof fn lemma_skip_to_close_twice<CP: ContentProcessor>(
    s: Seq<WalkDirIteratorItem<CP>>,
    m: nat,
    n: nat,
)
    ensures
        skip_to_close::<CP>(skip_to_close::<CP>(s, m), n) == skip_to_close::<CP>(s, m + n),
    decreases s.len(),
{
    if s.len() > 0 {
        match s[0] {
            Position::BeforeContent(_) => {
                lemma_skip_to_close_twice::<CP>(s.skip(1), m + 1, n);
            },
            Position::AfterContent => {
                if m > 0 {
                    lemma_skip_to_close_twice::<CP>(s.skip(1), (m - 1) as nat, n);
                }
            },
            _ => {
                lemma_skip_to_close_twice::<CP>(s.skip(1), m, n);
            },
        }
    }
}

impl<E: StorageExt, CP: ContentProcessor, S: Sorter> Env<E, CP, S> {
    /// Going into a directory yields balanced steps.
    pub proof fn lemma_descend_balanced(
        &self,
        flat: FlatDirEntry,
        depth: Depth,
        chain: Seq<Ancestor>,
    )
        ensures
            balanced::<CP>(self.descend_trace(flat, depth, chain)),
        decreases self.opts.max_depth - depth, 0nat, 0nat,
    {
        self.lemma_descend_trace(flat, depth, chain);
        let d = self.descend_trace(flat, depth, chain);
        if depth < self.opts.max_depth && flat.loop_link is None {
            match self.open_dir(flat, chain) {
                Err(e) => {
                    lemma_balanced_flat::<CP>(d);
                },
                Ok((raws, chain2)) => {
                    let below = (depth + 1) as usize;
                    let order = crate::dir::spec_visit_order(
                        &self.fs,
                        self.cx(chain2),
                        below,
                        &self.sorter,
                        raws,
                    );
                    self.lemma_content_balanced(order, below, chain2);
                    lemma_balanced_wrap::<CP>(
                        self.cp.spec_process(&flat, depth),
                        self.content_trace(order, below, chain2),
                    );
                },
            }
        } else {
            lemma_balanced_flat::<CP>(d);
        }
    }

    /// A record yields balanced steps.
    pub proof fn lemma_entry_balanced(
        &self,
        rec: DirEntryRecord,
        depth: Depth,
        chain: Seq<Ancestor>,
    )
        ensures
            balanced::<CP>(self.entry_trace(rec, depth, chain)),
            balanced::<CP>(self.pre_trace(rec, depth)),
            balanced::<CP>(self.post_trace(rec, depth)),
            balanced::<CP>(self.entry_item(rec, depth)),
        decreases self.opts.max_depth - depth, 1nat, 0nat,
    {
        lemma_balanced_flat::<CP>(self.entry_item(rec, depth));
        lemma_balanced_flat::<CP>(self.pre_trace(rec, depth));
        lemma_balanced_flat::<CP>(self.post_trace(rec, depth));
        match rec.flat {
            Err(e) => {
                self.lemma_entry_trace_error(rec, depth, chain);
                lemma_balanced_flat::<CP>(self.entry_trace(rec, depth, chain));
            },
            Ok(flat) => {
                if flat.is_dir {
                    self.lemma_entry_trace_dir(rec, depth, chain);
                    self.lemma_descend_balanced(flat, depth, chain);
                    lemma_balanced_add::<CP>(
                        self.pre_trace(rec, depth),
                        self.descend_trace(flat, depth, chain),
                    );
                    lemma_balanced_add::<CP>(
                        self.pre_trace(rec, depth) + self.descend_trace(flat, depth, chain),
                        self.post_trace(rec, depth),
                    );
                } else {
                    self.lemma_entry_trace_file(rec, depth, chain);
                }
            },
        }
    }

    /// The records of a directory yield balanced steps.
    pub proof fn lemma_content_balanced(
        &self,
        recs: Seq<DirEntryRecord>,
        depth: Depth,
        chain: Seq<Ancestor>,
    )
        ensures
            balanced::<CP>(self.content_trace(recs, depth, chain)),
        decreases self.opts.max_depth - depth, 2nat, recs.len(),
    {
        if recs.len() == 0 {
            self.lemma_content_trace_empty(recs, depth, chain);
            lemma_balanced_flat::<CP>(self.content_trace(recs, depth, chain));
        } else {
            self.lemma_content_trace_step(recs, depth, chain);
            self.lemma_entry_balanced(recs[0], depth, chain);
            self.lemma_content_balanced(recs.skip(1), depth, chain);
            lemma_balanced_add::<CP>(
                self.entry_trace(recs[0], depth, chain),
                self.content_trace(recs.skip(1), depth, chain),
            );
        }
    }
}

} // verus!
