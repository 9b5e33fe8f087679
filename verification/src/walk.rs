//! The walk itself: a stack of directory states, driven one step at a time.
use vstd::prelude::*;
use crate::classify::{Ancestor, Classifier, Cx};
use crate::cp::ContentProcessor;
use crate::dir::{DirEntryRecord, DirPosition, DirState};
use crate::error::{Error, ErrorInner};
use crate::opts::WalkDirOptions;
use crate::rawdent::RawDirEntry;
use crate::sort::Sorter;
use crate::storage::StorageExt;
use crate::trace::{Env, WalkDirIteratorItem};
use crate::wd::{ContentFilter, Depth, DeviceNum, Position};

verus! {

/// Where the walk stands in the life of the directory entry at the top of
/// the stack. Yielding a directory and going into it are two steps, and so
/// are leaving a directory and going on behind it.
#[derive(Clone, Copy, Debug, PartialEq, Eq, Structural)]
pub enum TransitionState {
    /// Nothing is pending.
    Idle,
    /// The directory at the top has had its turn before its content; the
    /// walk goes into it next.
    BeforePushDown,
    /// The end of the directory at the top has been reported; the walk
    /// leaves it next.
    BeforePopUp,
    /// The content of the directory entry at the top is done (or was never
    /// begun); the entry has its turn after the content next.
    AfterPopUp,
}

/// What the walk reads off the record at the top of the stack.
enum TopRecord {
    /// The record holds an error.
    Error(Error),
    /// The record holds an entry.
    Entry { is_dir: bool, allow_yield: bool, loop_link: Option<Depth> },
}

/// A walk in progress.
///
/// The iterator holds one [`DirState`] for each directory between the root
/// and the place where it stands; `states[d]` holds the entries of depth
/// `d`, and `states[0]` the root alone. Every state below the top stands at
/// the directory whose content is the state above it.
///
/// What is still to come is `remaining()`. Each call of `next` yields its
/// head and leaves its tail.
pub struct WalkDirIterator<E: StorageExt, CP: ContentProcessor, S: Sorter> {
    /// The options of the walk.
    pub opts: WalkDirOptions<S>,
    /// The root, until the first step.
    pub start: Option<String>,
    /// The open directories, the root first.
    pub states: Vec<DirState<E>>,
    pub transition_state: TransitionState,
    /// The directories on the way down, if links are followed:
    /// `ancestors[d]` is the directory whose content is `states[d + 1]`.
    pub ancestors: Vec<Ancestor>,
    /// No state below this index holds a stream open.
    pub oldest_opened: usize,
    /// The device of the root, if the walk stays on one file system.
    pub root_device: Option<DeviceNum>,
    /// The storage that is walked.
    pub fs: E,
    pub content_processor: CP,
}

impl<E: StorageExt, CP: ContentProcessor, S: Sorter> WalkDirIterator<E, CP, S> {
    /// All that the walk depends on.
    pub open spec fn env(&self) -> Env<E, CP, S> {
        Env {
            fs: self.fs,
            cp: self.content_processor,
            sorter: self.opts.sorter,
            opts: self.opts.immut,
            root_device: self.root_device,
        }
    }

    /// The directories that the entries of `states[i]` are checked against.
    pub open spec fn chain_at(&self, i: int) -> Seq<Ancestor> {
        if 0 <= i <= self.ancestors@.len() {
            self.ancestors@.take(i)
        } else {
            self.ancestors@
        }
    }

    /// What the classification of the entries of `states[i]` depends on.
    pub open spec fn cx_at(&self, i: int) -> Cx {
        self.env().cx(self.chain_at(i))
    }

    /// The records that `states[i]` has still to stop at.
    pub open spec fn upcoming_at(&self, i: int) -> Seq<DirEntryRecord> {
        self.states@[i].upcoming(&self.fs, self.cx_at(i))
    }

    /// `states[i]` stands at a directory entry.
    pub open spec fn is_dir_at(&self, i: int) -> bool {
        &&& self.states@[i].position is Entry
        &&& self.states@[i].current().flat is Ok
        &&& self.states@[i].current().flat->Ok_0.is_dir
    }

    /// A record of `states[i]` that is marked as a loop leads back to one
    /// of the directories above it.
    pub open spec fn loops_ok_at(&self, i: int) -> bool {
        &&& self.states@[i].position is Entry ==> crate::dir::loop_within(
            self.states@[i].current(),
            self.chain_at(i).len() as int,
        )
        &&& forall|k: int|
            0 <= k < self.upcoming_at(i).len() ==> crate::dir::loop_within(
                #[trigger] self.upcoming_at(i)[k],
                self.chain_at(i).len() as int,
            )
    }

    /// The state of a walk that has taken its first step and is not over.
    pub open spec fn wf_running(&self) -> bool {
        let n = self.states@.len() as int;
        let top = n - 1;
        &&& n > 0
        &&& top <= self.opts.immut.max_depth
        &&& self.ancestors@.len() == if self.opts.immut.follow_links {
            top
        } else {
            0
        }
        &&& self.oldest_opened <= n
        &&& n - self.oldest_opened <= self.opts.immut.max_open
        &&& forall|i: int| 0 <= i < n ==> (#[trigger] self.states@[i]).wf()
        &&& forall|i: int| 0 <= i < n ==> (#[trigger] self.states@[i]).depth == i
        &&& forall|i: int|
            0 <= i < self.oldest_opened ==> !((#[trigger] self.states@[i]).content.rd is Opened)
        &&& forall|i: int| 0 <= i < top ==> #[trigger] self.is_dir_at(i)
        &&& forall|i: int| 0 <= i < n ==> #[trigger] self.loops_ok_at(i)
        &&& !(self.states@[top].position is BeforeContent)
        &&& match self.transition_state {
            TransitionState::Idle => true,
            TransitionState::BeforePushDown => self.is_dir_at(top) && top
                < self.opts.immut.max_depth,
            TransitionState::AfterPopUp => self.is_dir_at(top),
            TransitionState::BeforePopUp => top > 0 && self.states@[top].position is AfterContent,
        }
    }

    /// The iterator is in order: it has not started, or it is over, or it
    /// is under way with its stack in order.
    pub open spec fn wf(&self) -> bool {
        &&& self.opts.immut.max_open >= 1
        &&& match self.start {
            Some(_) => {
                &&& self.states@.len() == 0
                &&& self.ancestors@.len() == 0
                &&& self.oldest_opened == 0
                &&& self.root_device is None
                &&& self.transition_state == TransitionState::Idle
            },
            None => self.states@.len() > 0 ==> self.wf_running(),
        }
    }

    /// What follows once `states[i]` is through: the mark of leaving its
    /// directory, the turn of that directory after its content, and what
    /// follows that in the state below. Nothing follows the root.
    pub open spec fn below(&self, i: int) -> Seq<WalkDirIteratorItem<CP>>
        decreases i, 0nat,
    {
        if 0 < i < self.states@.len() {
            seq![Position::AfterContent] + self.env().post_trace(
                self.states@[i - 1].current(),
                (i - 1) as usize,
            ) + self.tail(i - 1)
        } else {
            seq![]
        }
    }

    /// What follows once the record at which `states[i]` stands is done:
    /// the records that the state has still to stop at, and what follows
    /// the state.
    pub open spec fn tail(&self, i: int) -> Seq<WalkDirIteratorItem<CP>>
        decreases i, 1nat,
    {
        if 0 <= i < self.states@.len() {
            self.env().content_trace(self.upcoming_at(i), i as usize, self.chain_at(i))
                + self.below(i)
        } else {
            seq![]
        }
    }

    /// All that the walk has still to yield, in order.
    pub open spec fn remaining(&self) -> Seq<WalkDirIteratorItem<CP>> {
        match self.start {
            Some(root) => crate::trace::walk_trace(
                self.fs,
                self.content_processor,
                self.opts.sorter,
                self.opts.immut,
                root,
            ),
            None => if self.states@.len() == 0 {
                seq![]
            } else {
                let top = self.states@.len() - 1;
                let st = self.states@[top];
                let depth = top as usize;
                match st.position {
                    DirPosition::BeforeContent => seq![],
                    DirPosition::Entry => match self.transition_state {
                        TransitionState::Idle => self.env().entry_trace(
                            st.current(),
                            depth,
                            self.chain_at(top),
                        ) + self.tail(top),
                        TransitionState::BeforePushDown => self.env().descend_trace(
                            st.current().flat->Ok_0,
                            depth,
                            self.chain_at(top),
                        ) + self.env().post_trace(st.current(), depth) + self.tail(top),
                        TransitionState::AfterPopUp => self.env().post_trace(st.current(), depth)
                            + self.tail(top),
                        TransitionState::BeforePopUp => seq![],
                    },
                    DirPosition::AfterContent => match self.transition_state {
                        TransitionState::BeforePopUp => if top > 0 {
                            self.env().post_trace(
                                self.states@[top - 1].current(),
                                (top - 1) as usize,
                            ) + self.tail(top - 1)
                        } else {
                            seq![]
                        },
                        _ => self.tail(top),
                    },
                }
            },
        }
    }

    /// How many of the first `n` states hold a stream of the storage open.
    pub open spec fn opened_among(&self, n: int) -> int
        decreases n,
    {
        if n <= 0 || n > self.states@.len() {
            0
        } else {
            self.opened_among(n - 1) + if self.states@[n - 1].content.rd is Opened {
                1int
            } else {
                0int
            }
        }
    }

    /// How many streams of the storage the walk holds open.
    pub open spec fn open_streams(&self) -> int {
        self.opened_among(self.states@.len() as int)
    }

    /// A walk in order holds no more streams open than its options allow.
    pub proof fn lemma_open_streams(&self)
        requires
            self.wf(),
        ensures
            self.open_streams() <= self.opts.immut.max_open,
    {
        if self.start is None && self.states@.len() > 0 {
            self.lemma_opened_among(self.states@.len() as int);
        }
    }

    /// Among the first `n` states no more hold a stream open than there
    /// are states from `oldest_opened` on.
    proof fn lemma_opened_among(&self, n: int)
        requires
            self.start is None,
            self.wf_running(),
            0 <= n <= self.states@.len(),
        ensures
            self.opened_among(n) <= if n > self.oldest_opened {
                n - self.oldest_opened
            } else {
                0
            },
        decreases n,
    {
        if n > 0 {
            self.lemma_opened_among(n - 1);
            if n - 1 < self.oldest_opened {
                assert(!(self.states@[n - 1].content.rd is Opened));
            }
        }
    }

    /// What the walk has to yield once it is put behind the content of the
    /// directory at which it stands: what follows that directory. A walk
    /// that has not begun, or is over, has no such directory and is left as
    /// it is.
    pub open spec fn after_skip(&self) -> Seq<WalkDirIteratorItem<CP>> {
        if self.states@.len() > 0 {
            self.below(self.states@.len() - 1)
        } else {
            self.remaining()
        }
    }

    /// What is left of the directory at which the walk stands: what the
    /// record at the top of the stack has still to yield, and what the
    /// records behind it yield.
    pub open spec fn current_dir_rest(&self) -> Seq<WalkDirIteratorItem<CP>> {
        if self.start is Some || self.states@.len() == 0 {
            seq![]
        } else {
            let top = self.states@.len() - 1;
            let st = self.states@[top];
            let depth = top as usize;
            let others = self.env().content_trace(
                self.upcoming_at(top),
                depth,
                self.chain_at(top),
            );
            match st.position {
                DirPosition::Entry => match self.transition_state {
                    TransitionState::Idle => self.env().entry_trace(
                        st.current(),
                        depth,
                        self.chain_at(top),
                    ) + others,
                    TransitionState::BeforePushDown => self.env().descend_trace(
                        st.current().flat->Ok_0,
                        depth,
                        self.chain_at(top),
                    ) + self.env().post_trace(st.current(), depth) + others,
                    TransitionState::AfterPopUp => self.env().post_trace(st.current(), depth)
                        + others,
                    TransitionState::BeforePopUp => seq![],
                },
                _ => seq![],
            }
        }
    }

    /// What a walk has still to yield is what is left of the directory at
    /// which it stands, and then what follows that directory: the mark of
    /// leaving it, its own entry if directories come after their content,
    /// and the rest of the walk. `skip_current_dir` drops the first part and
    /// keeps the second: nothing more of the directory at which the walk
    /// stands is yielded, nor of anything below it, and everything behind it
    /// is, as if it had not been skipped.
    ///
    /// After the mark of entering a directory, that directory is the one at
    /// which the walk stands. (The law does not speak of a walk that has
    /// just yielded the mark of leaving a directory: there `skip_current_dir`
    /// makes the walk yield that mark once more.)
    pub proof fn lemma_skip_current_dir(&self)
        requires
            self.start is None,
            self.wf(),
            self.states@.len() > 0,
            self.transition_state != TransitionState::BeforePopUp,
        ensures
            self.remaining() == self.current_dir_rest() + self.after_skip(),
    {
        let top = self.states@.len() - 1;
        let env = self.env();
        let others = env.content_trace(self.upcoming_at(top), top as usize, self.chain_at(top));
        let below = self.below(top);
        assert(self.tail(top) == others + below);
        match self.states@[top].position {
            DirPosition::Entry => {
                let cur = self.states@[top].current();
                match self.transition_state {
                    TransitionState::Idle => {
                        let a = env.entry_trace(cur, top as usize, self.chain_at(top));
                        assert(a + (others + below) =~= (a + others) + below);
                    },
                    TransitionState::BeforePushDown => {
                        let a = env.descend_trace(
                            cur.flat->Ok_0,
                            top as usize,
                            self.chain_at(top),
                        ) + env.post_trace(cur, top as usize);
                        assert(a + (others + below) =~= (a + others) + below);
                    },
                    TransitionState::AfterPopUp => {
                        let a = env.post_trace(cur, top as usize);
                        assert(a + (others + below) =~= (a + others) + below);
                    },
                    TransitionState::BeforePopUp => {},
                }
            },
            DirPosition::AfterContent => {
                self.lemma_remaining_after_content();
                assert(self.current_dir_rest() + below =~= below);
            },
            DirPosition::BeforeContent => {},
        }
    }

    /// What follows the directory at which a walk stands is what is left
    /// of its steps behind the directory that is open at their start.
    pub proof fn lemma_below_is_skip_to_close(&self)
        requires
            self.start is None,
            self.wf(),
            self.states@.len() > 0,
            self.transition_state != TransitionState::BeforePopUp,
        ensures
            self.after_skip() == crate::trace::skip_to_close::<CP>(self.remaining(), 0),
    {
        let top = self.states@.len() - 1;
        let env = self.env();
        let rest = self.current_dir_rest();
        let below = self.below(top);
        self.lemma_skip_current_dir();
        let others = env.content_trace(self.upcoming_at(top), top as usize, self.chain_at(top));
        env.lemma_content_balanced(self.upcoming_at(top), top as usize, self.chain_at(top));
        assert(crate::trace::balanced::<CP>(rest)) by {
            match self.states@[top].position {
                DirPosition::Entry => {
                    let cur = self.states@[top].current();
                    env.lemma_entry_balanced(cur, top as usize, self.chain_at(top));
                    match self.transition_state {
                        TransitionState::Idle => {
                            crate::trace::lemma_balanced_add::<CP>(
                                env.entry_trace(cur, top as usize, self.chain_at(top)),
                                others,
                            );
                        },
                        TransitionState::BeforePushDown => {
                            env.lemma_descend_balanced(
                                cur.flat->Ok_0,
                                top as usize,
                                self.chain_at(top),
                            );
                            crate::trace::lemma_balanced_add::<CP>(
                                env.descend_trace(cur.flat->Ok_0, top as usize, self.chain_at(top)),
                                env.post_trace(cur, top as usize),
                            );
                            crate::trace::lemma_balanced_add::<CP>(
                                env.descend_trace(cur.flat->Ok_0, top as usize, self.chain_at(top))
                                    + env.post_trace(cur, top as usize),
                                others,
                            );
                        },
                        TransitionState::AfterPopUp => {
                            crate::trace::lemma_balanced_add::<CP>(env.post_trace(cur, top as usize), others);
                        },
                        TransitionState::BeforePopUp => {},
                    }
                },
                _ => {
                    crate::trace::lemma_balanced_flat::<CP>(rest);
                },
            }
        }
        assert(crate::trace::skip_to_close::<CP>(rest + below, 0) == crate::trace::skip_to_close::<CP>(below, 0));
        if top > 0 {
            assert(below[0] is AfterContent);
        }
    }

    /// A measure of the steps that `next` may still take before it yields:
    /// leaving a directory comes before everything else.
    pub open spec fn rank_a(&self) -> int {
        if self.transition_state == TransitionState::BeforePopUp {
            1
        } else {
            0
        }
    }

    /// A measure of the steps that `next` may still take before it yields:
    /// the records that the top state has still to stop at, and the state of
    /// the transition.
    pub open spec fn rank_b(&self) -> int {
        let top = self.states@.len() - 1;
        4 * (self.upcoming_at(top).len() + if self.states@[top].position is Entry {
            1int
        } else {
            0int
        }) + match self.transition_state {
            TransitionState::Idle => 3int,
            TransitionState::BeforePushDown => 2int,
            TransitionState::AfterPopUp => 1int,
            TransitionState::BeforePopUp => 0int,
        }
    }

    /// What follows a state depends on the states up to it alone.
    pub proof fn lemma_tail_frame(a: Self, b: Self, i: int)
        requires
            0 <= i < a.states@.len(),
            i < b.states@.len(),
            a.env() == b.env(),
            forall|j: int| 0 <= j <= i ==> #[trigger] a.chain_at(j) == b.chain_at(j),
            forall|j: int| 0 <= j <= i ==> #[trigger] a.upcoming_at(j) == b.upcoming_at(j),
            forall|j: int|
                0 <= j < i ==> (#[trigger] a.states@[j]).current() == b.states@[j].current(),
        ensures
            a.tail(i) == b.tail(i),
            a.below(i) == b.below(i),
        decreases i,
    {
        assert(a.chain_at(i) == b.chain_at(i));
        assert(a.upcoming_at(i) == b.upcoming_at(i));
        if i > 0 {
            Self::lemma_tail_frame(a, b, i - 1);
            assert(a.states@[i - 1].current() == b.states@[i - 1].current());
        }
    }

    /// Makes the iterator of a walk from `root`. Nothing is read before
    /// the first step; `max_open` is raised to 1 if it is 0.
    pub fn new(opts: WalkDirOptions<S>, root: String, fs: E, content_processor: CP) -> (r: Self)
        ensures
            r.wf(),
            r.start == Some(root),
            r.fs == fs,
            r.content_processor == content_processor,
            r.opts.sorter == opts.sorter,
            r.opts.immut == (if opts.immut.max_open == 0 {
                crate::opts::WalkDirOptionsImmut { max_open: 1, ..opts.immut }
            } else {
                opts.immut
            }),
            r.remaining() == crate::trace::walk_trace(
                fs,
                content_processor,
                opts.sorter,
                r.opts.immut,
                root,
            ),
    {
        let mut opts = opts;
        if opts.immut.max_open == 0 {
            opts.immut.max_open = 1;
        }
        WalkDirIterator {
            opts,
            start: Some(root),
            states: Vec::new(),
            transition_state: TransitionState::Idle,
            ancestors: Vec::new(),
            oldest_opened: 0,
            root_device: None,
            fs,
            content_processor,
        }
    }

    /// Takes the first step: finds the device of the root if the walk
    /// stays on one file system, and makes the state that holds the root.
    fn init(&mut self, root: &String) -> (r: Result<(), ErrorInner>)
        requires
            old(self).opts.immut.max_open >= 1,
            old(self).start is None,
            old(self).states@.len() == 0,
            old(self).ancestors@.len() == 0,
            old(self).oldest_opened == 0,
            old(self).root_device is None,
            old(self).transition_state == TransitionState::Idle,
        ensures
            final(self).wf(),
            final(self).start is None,
            final(self).opts == old(self).opts,
            final(self).fs == old(self).fs,
            final(self).content_processor == old(self).content_processor,
            final(self).transition_state == TransitionState::Idle,
            match r {
                Ok(_) => final(self).remaining() == crate::trace::walk_trace(
                    old(self).fs,
                    old(self).content_processor,
                    old(self).opts.sorter,
                    old(self).opts.immut,
                    *root,
                ),
                Err(e) => final(self).states@.len() == 0 && crate::trace::walk_trace(
                    old(self).fs,
                    old(self).content_processor,
                    old(self).opts.sorter,
                    old(self).opts.immut,
                    *root,
                ) == seq![
                    Position::<Option<CP::Item>, CP::Item, Error>::Error(
                        Error { depth: 0, inner: e },
                    ),
                ],
            },
    {
        if self.opts.immut.same_file_system {
            match self.fs.device_num(root) {
                Ok(d) => {
                    self.root_device = Some(d);
                },
                Err(e) => {
                    return Err(ErrorInner::from_path(root.clone(), e));
                },
            }
        }
        self.push_root(root)
    }

    /// Makes the state that holds the root and stands at it.
    fn push_root(&mut self, root: &String) -> (r: Result<(), ErrorInner>)
        requires
            old(self).opts.immut.max_open >= 1,
            old(self).start is None,
            old(self).states@.len() == 0,
            old(self).ancestors@.len() == 0,
            old(self).oldest_opened == 0,
            old(self).transition_state == TransitionState::Idle,
        ensures
            final(self).wf(),
            final(self).start is None,
            final(self).opts == old(self).opts,
            final(self).fs == old(self).fs,
            final(self).content_processor == old(self).content_processor,
            final(self).root_device == old(self).root_device,
            final(self).transition_state == TransitionState::Idle,
            match (r, RawDirEntry::spec_from_path(&old(self).fs, *root)) {
                (Ok(_), Ok(raw)) => final(self).remaining() == old(self).env().content_trace(
                    crate::dir::spec_visit_order(
                        &old(self).fs,
                        old(self).env().cx(seq![]),
                        0,
                        &old(self).opts.sorter,
                        seq![Ok(raw)],
                    ),
                    0,
                    seq![],
                ),
                (Err(e), Err(e2)) => e == e2 && final(self).states@.len() == 0,
                _ => false,
            },
    {
        let classifier = Classifier {
            opts: &self.opts.immut,
            root_device: self.root_device,
            ancestors: &self.ancestors,
        };
        let mut state = match DirState::new_once(root, 0, &classifier, &self.opts.sorter, &self.fs) {
            Ok(s) => s,
            Err(e) => {
                return Err(e);
            },
        };
        let ghost cx = classifier.cx(0);
        let ghost order = state.upcoming(&self.fs, cx);
        proof {
            assert(cx.chain =~= seq![]);
            assert(cx == self.env().cx(seq![]));
            assert forall|k: int| 0 <= k < order.len() implies crate::dir::loop_within(
                #[trigger] order[k],
                0,
            ) by {
                crate::dir::lemma_visit_order_loops(
                    &self.fs,
                    cx,
                    0,
                    &self.opts.sorter,
                    seq![Ok(RawDirEntry::spec_from_path(&self.fs, *root)->Ok_0)],
                    k,
                );
            }
        }
        state.next_position(&classifier, &self.fs);
        self.states.push(state);
        proof {
            assert(self.chain_at(0) =~= seq![]);
            assert(self.cx_at(0) == cx);
            assert(self.upcoming_at(0) == self.states@[0].upcoming(&self.fs, cx));
            assert(self.below(0) =~= seq![]);
            assert(self.loops_ok_at(0)) by {
                if order.len() > 0 {
                    assert(self.states@[0].current() == order[0]);
                    assert forall|k: int| 0 <= k < self.upcoming_at(0).len() implies crate::dir::loop_within(
                        #[trigger] self.upcoming_at(0)[k],
                        0,
                    ) by {
                        assert(self.upcoming_at(0)[k] == order[k + 1]);
                    }
                }
            }
            let env = self.env();
            self.lemma_tail_unfold(0);
            if order.len() > 0 {
                env.lemma_content_trace_step(order, 0, seq![]);
                assert(self.upcoming_at(0) == order.skip(1));
                assert(self.remaining() =~= env.content_trace(order, 0, seq![]));
            } else {
                env.lemma_content_trace_empty(order, 0, seq![]);
                assert(self.upcoming_at(0) =~= seq![]);
                self.lemma_remaining_after_content();
                assert(self.remaining() =~= env.content_trace(order, 0, seq![]));
            }
        }
        Ok(())
    }

    /// What the walk reads off the record at the top of the stack.
    fn inspect_top(&self) -> (r: TopRecord)
        requires
            self.start is None,
            self.wf(),
            self.states@.len() > 0,
            self.states@[self.states@.len() - 1].position is Entry,
        ensures
            match r {
                TopRecord::Error(err) => {
                    &&& self.states@[self.states@.len() - 1].current().flat == Err::<
                        crate::dir::FlatDirEntry,
                        ErrorInner,
                    >(err.inner)
                    &&& err.depth == self.states@.len() - 1
                },
                TopRecord::Entry { is_dir, allow_yield, loop_link } => {
                    let rec = self.states@[self.states@.len() - 1].current();
                    &&& rec.flat is Ok
                    &&& is_dir == rec.flat->Ok_0.is_dir
                    &&& loop_link == rec.flat->Ok_0.loop_link
                    &&& allow_yield == self.env().allow_yield(
                        rec,
                        (self.states@.len() - 1) as usize,
                    )
                },
            },
    {
        let top = self.states.len() - 1;
        match self.states[top].get_current_position() {
            Position::Entry(rflat) => {
                let loop_link = rflat.loop_link();
                let loop_ok = match loop_link {
                    Some(_) => self.opts.immut.yield_loop_links,
                    None => true,
                };
                let allow_yield = !rflat.hidden() && top >= self.opts.immut.min_depth && loop_ok;
                TopRecord::Entry { is_dir: rflat.is_dir(), allow_yield, loop_link }
            },
            Position::Error(rerr) => TopRecord::Error(rerr.into_error()),
            _ => {
                proof {
                    assert(false);
                }
                TopRecord::Entry { is_dir: false, allow_yield: false, loop_link: None }
            },
        }
    }

    /// Makes the caller's item of the entry at the top of the stack.
    fn make_top_item(&self) -> (r: Option<CP::Item>)
        requires
            self.start is None,
            self.wf(),
            self.states@.len() > 0,
            self.states@[self.states@.len() - 1].position is Entry,
            self.states@[self.states@.len() - 1].current().flat is Ok,
        ensures
            r == self.content_processor.spec_process(
                &self.states@[self.states@.len() - 1].current().flat->Ok_0,
                (self.states@.len() - 1) as usize,
            ),
    {
        let top = self.states.len() - 1;
        match self.states[top].get_current_position() {
            Position::Entry(rflat) => rflat.make_item(&self.content_processor),
            _ => {
                proof {
                    assert(false);
                }
                None
            },
        }
    }

    /// The error that reports the entry at the top of the stack as a link
    /// back to the directory with the index `index` on the way down.
    fn make_loop_error(&self, index: usize) -> (r: ErrorInner)
        requires
            self.start is None,
            self.wf(),
            self.states@.len() > 0,
            self.states@[self.states@.len() - 1].position is Entry,
            self.states@[self.states@.len() - 1].current().flat is Ok,
            self.states@[self.states@.len() - 1].current().flat->Ok_0.loop_link == Some(index),
        ensures
            r == crate::trace::spec_loop_error(
                self.chain_at(self.states@.len() - 1),
                index,
                self.states@[self.states@.len() - 1].current().flat->Ok_0.raw.path,
            ),
    {
        let top = self.states.len() - 1;
        proof {
            assert(self.chain_at(top as int) =~= self.ancestors@);
            assert(self.loops_ok_at(top as int));
        }
        let raw = self.top_raw();
        ErrorInner::from_loop(&self.ancestors[index].path, &raw.path)
    }

    /// What the walk observes of `states[j]` is the same in `other`: where
    /// the state stands, the record it stands at, and the records it has
    /// still to stop at. `other` holds no stream open that this one has
    /// let go of.
    pub open spec fn same_state(&self, other: Self, j: int) -> bool {
        &&& other.states@[j].wf()
        &&& other.states@[j].depth == j
        &&& other.states@[j].position == self.states@[j].position
        &&& self.states@[j].position is Entry ==> other.states@[j].current()
            == self.states@[j].current()
        &&& other.upcoming_at(j) == self.upcoming_at(j)
        &&& !(self.states@[j].content.rd is Opened) ==> !(other.states@[j].content.rd is Opened)
    }

    /// A walk whose states keep what is observed of them is in order as
    /// before and has the same steps to come.
    pub proof fn lemma_same_observations(pre: Self, now: Self)
        requires
            pre.start is None,
            pre.wf_running(),
            now.start is None,
            now.opts == pre.opts,
            now.fs == pre.fs,
            now.content_processor == pre.content_processor,
            now.root_device == pre.root_device,
            now.ancestors == pre.ancestors,
            now.oldest_opened == pre.oldest_opened,
            now.transition_state == pre.transition_state,
            now.states@.len() == pre.states@.len(),
            forall|j: int| 0 <= j < pre.states@.len() ==> #[trigger] pre.same_state(now, j),
        ensures
            now.wf_running(),
            now.remaining() == pre.remaining(),
            now.rank_b() == pre.rank_b(),
            forall|i: int|
                #![trigger now.tail(i)]
                0 <= i < pre.states@.len() ==> now.tail(i) == pre.tail(i),
            forall|i: int|
                #![trigger now.below(i)]
                0 <= i < pre.states@.len() ==> now.below(i) == pre.below(i),
    {
        let n = pre.states@.len() as int;
        let top = n - 1;
        assert forall|j: int| 0 <= j < n implies (#[trigger] now.states@[j]).wf()
            && now.states@[j].depth == j by {
            assert(pre.same_state(now, j));
        }
        assert forall|j: int| 0 <= j < now.oldest_opened implies !((
        #[trigger] now.states@[j]).content.rd is Opened) by {
            assert(pre.same_state(now, j));
            assert(!(pre.states@[j].content.rd is Opened));
        }
        assert forall|j: int| 0 <= j < top implies #[trigger] now.is_dir_at(j) by {
            assert(pre.same_state(now, j));
            assert(pre.is_dir_at(j));
        }
        assert(pre.same_state(now, top));
        assert forall|j: int| 0 <= j < n implies #[trigger] now.loops_ok_at(j) by {
            assert(pre.same_state(now, j));
            assert(pre.loops_ok_at(j));
            assert(now.chain_at(j) == pre.chain_at(j));
        }
        assert forall|i: int| 0 <= i < n implies now.tail(i) == pre.tail(i) && now.below(i)
            == pre.below(i) by {
            assert forall|j: int| 0 <= j <= i implies #[trigger] pre.chain_at(j) == now.chain_at(
                j,
            ) by {}
            assert forall|j: int| 0 <= j <= i implies #[trigger] pre.upcoming_at(j)
                == now.upcoming_at(j) by {
                assert(pre.same_state(now, j));
            }
            assert forall|j: int| 0 <= j < i implies (#[trigger] pre.states@[j]).current()
                == now.states@[j].current() by {
                assert(pre.same_state(now, j));
                assert(pre.is_dir_at(j));
            }
            Self::lemma_tail_frame(pre, now, i);
        }
        assert(now.tail(top) == pre.tail(top));
        if top > 0 {
            assert(pre.same_state(now, top - 1));
            assert(pre.is_dir_at(top - 1));
            assert(now.tail(top - 1) == pre.tail(top - 1));
        }
    }

    /// A walk in which the state at the top alone has changed (or only the
    /// transition) is in order if its top is, and what follows the top
    /// state is what it was.
    pub proof fn lemma_top_replaced(pre: Self, now: Self)
        requires
            pre.start is None,
            pre.wf_running(),
            now.start is None,
            now.opts == pre.opts,
            now.fs == pre.fs,
            now.content_processor == pre.content_processor,
            now.root_device == pre.root_device,
            now.ancestors == pre.ancestors,
            now.oldest_opened == pre.oldest_opened,
            now.states@.len() == pre.states@.len(),
            forall|j: int|
                0 <= j < pre.states@.len() - 1 ==> (#[trigger] now.states@[j]) == pre.states@[j],
            now.states@[pre.states@.len() - 1].wf(),
            now.states@[pre.states@.len() - 1].depth == pre.states@.len() - 1,
            !(now.states@[pre.states@.len() - 1].position is BeforeContent),
            now.states@[pre.states@.len() - 1].content.rd is Opened
                ==> pre.states@[pre.states@.len() - 1].content.rd is Opened,
            now.loops_ok_at(pre.states@.len() - 1),
            match now.transition_state {
                TransitionState::Idle => true,
                TransitionState::BeforePushDown => now.is_dir_at(pre.states@.len() - 1)
                    && pre.states@.len() - 1 < pre.opts.immut.max_depth,
                TransitionState::AfterPopUp => now.is_dir_at(pre.states@.len() - 1),
                TransitionState::BeforePopUp => pre.states@.len() > 1
                    && now.states@[pre.states@.len() - 1].position is AfterContent,
            },
        ensures
            now.wf_running(),
            now.env() == pre.env(),
            now.chain_at(pre.states@.len() - 1) == pre.chain_at(pre.states@.len() - 1),
            now.cx_at(pre.states@.len() - 1) == pre.cx_at(pre.states@.len() - 1),
            now.below(pre.states@.len() - 1) == pre.below(pre.states@.len() - 1),
            pre.states@.len() > 1 ==> now.tail(pre.states@.len() - 2) == pre.tail(
                pre.states@.len() - 2,
            ) && now.states@[pre.states@.len() - 2] == pre.states@[pre.states@.len() - 2],
    {
        let n = pre.states@.len() as int;
        let top = n - 1;
        assert forall|j: int| 0 <= j < n implies (#[trigger] now.states@[j]).wf()
            && now.states@[j].depth == j by {
            if j < top {
                assert(now.states@[j] == pre.states@[j]);
            }
        }
        assert forall|j: int| 0 <= j < now.oldest_opened implies !((
        #[trigger] now.states@[j]).content.rd is Opened) by {
            if j < top {
                assert(now.states@[j] == pre.states@[j]);
            }
            assert(!(pre.states@[j].content.rd is Opened));
        }
        assert forall|j: int| 0 <= j < top implies #[trigger] now.is_dir_at(j) by {
            assert(now.states@[j] == pre.states@[j]);
            assert(pre.is_dir_at(j));
        }
        assert forall|j: int| 0 <= j < n implies #[trigger] now.loops_ok_at(j) by {
            if j < top {
                assert(now.states@[j] == pre.states@[j]);
                assert(pre.loops_ok_at(j));
                assert(now.chain_at(j) == pre.chain_at(j));
                assert(now.upcoming_at(j) == pre.upcoming_at(j));
            }
        }
        if top > 0 {
            assert forall|j: int| 0 <= j <= top - 1 implies #[trigger] pre.chain_at(j)
                == now.chain_at(j) by {}
            assert forall|j: int| 0 <= j <= top - 1 implies #[trigger] pre.upcoming_at(j)
                == now.upcoming_at(j) by {
                assert(now.states@[j] == pre.states@[j]);
            }
            assert forall|j: int| 0 <= j < top - 1 implies (#[trigger] pre.states@[j]).current()
                == now.states@[j].current() by {
                assert(now.states@[j] == pre.states@[j]);
            }
            Self::lemma_tail_frame(pre, now, top - 1);
            assert(now.states@[top - 1] == pre.states@[top - 1]);
        }
    }

    /// The records of the top state are in order as long as the stack
    /// stays as it is.
    proof fn lemma_same_top_loops(pre: Self, now: Self)
        requires
            pre.start is None,
            pre.wf_running(),
            now.states == pre.states,
            now.ancestors == pre.ancestors,
            now.env() == pre.env(),
        ensures
            now.loops_ok_at(pre.states@.len() - 1),
    {
        let top = pre.states@.len() - 1;
        assert(pre.loops_ok_at(top));
        assert(now.chain_at(top) == pre.chain_at(top));
        assert(now.upcoming_at(top) == pre.upcoming_at(top));
    }

    /// What is to come when the top state stands behind its content and
    /// nothing is pending.
    pub proof fn lemma_remaining_after_content(&self)
        requires
            self.start is None,
            self.states@.len() > 0,
            self.states@[self.states@.len() - 1].position is AfterContent,
            self.transition_state != TransitionState::BeforePopUp,
        ensures
            self.remaining() == self.below(self.states@.len() - 1),
    {
        let top = self.states@.len() - 1;
        self.env().lemma_content_trace_empty(self.upcoming_at(top), top as usize, self.chain_at(top));
        assert(self.tail(top) =~= self.below(top));
    }

    /// What is to come when the top state stands at a record: what follows
    /// the record is what the state has still to stop at, and then what
    /// follows the state.
    pub proof fn lemma_tail_unfold(&self, i: int)
        requires
            0 <= i < self.states@.len(),
        ensures
            self.upcoming_at(i).len() == 0 ==> self.tail(i) == self.below(i),
            self.upcoming_at(i).len() > 0 ==> self.tail(i) == self.env().entry_trace(
                self.upcoming_at(i)[0],
                i as usize,
                self.chain_at(i),
            ) + (self.env().content_trace(self.upcoming_at(i).skip(1), i as usize, self.chain_at(i))
                + self.below(i)),
    {
        let up = self.upcoming_at(i);
        let env = self.env();
        if up.len() == 0 {
            env.lemma_content_trace_empty(up, i as usize, self.chain_at(i));
            assert(self.tail(i) =~= self.below(i));
        } else {
            env.lemma_content_trace_step(up, i as usize, self.chain_at(i));
            assert(self.tail(i) =~= env.entry_trace(up[0], i as usize, self.chain_at(i)) + (
            env.content_trace(up.skip(1), i as usize, self.chain_at(i)) + self.below(i)));
        }
    }

    /// What one round of `next` has achieved, from `pre` to `now`: it has
    /// yielded a step (`Some(Some(_))`), or found the walk at its end
    /// (`Some(None)`), or come nearer to one of the two (`None`).
    pub open spec fn stepped(pre: Self, now: Self, r: Option<Option<WalkDirIteratorItem<CP>>>) -> bool {
        &&& now.wf()
        &&& now.start is None
        &&& now.fs == pre.fs
        &&& now.content_processor == pre.content_processor
        &&& now.opts == pre.opts
        &&& match r {
            None => {
                &&& now.states@.len() > 0
                &&& now.remaining() == pre.remaining()
                &&& (now.rank_a() < pre.rank_a() || (now.rank_a() == pre.rank_a() && now.rank_b()
                    < pre.rank_b()))
            },
            Some(None) => pre.remaining().len() == 0 && now.remaining().len() == 0,
            Some(Some(x)) => {
                &&& pre.remaining() == seq![x] + now.remaining()
                &&& now.states@.len() > 0
                &&& now.transition_state == TransitionState::BeforePopUp ==> x is AfterContent
            },
        }
    }

    /// Leaves the record at the top of the stack for the next one that the
    /// top state stops at.
    fn leave_entry(&mut self)
        requires
            old(self).start is None,
            old(self).wf(),
            old(self).states@.len() > 0,
            old(self).states@[old(self).states@.len() - 1].position is Entry,
        ensures
            final(self).start is None,
            final(self).wf(),
            final(self).states@.len() == old(self).states@.len(),
            final(self).fs == old(self).fs,
            final(self).content_processor == old(self).content_processor,
            final(self).opts == old(self).opts,
            final(self).transition_state == TransitionState::Idle,
            final(self).remaining() == old(self).tail(old(self).states@.len() - 1),
            final(self).rank_b() <= 4 * old(self).upcoming_at(old(self).states@.len() - 1).len()
                + 3,
    {
        let top = self.states.len() - 1;
        let ghost pre = *self;
        let ghost up = self.upcoming_at(top as int);
        let classifier = Classifier {
            opts: &self.opts.immut,
            root_device: self.root_device,
            ancestors: &self.ancestors,
        };
        proof {
            assert(classifier.cx(top) == self.cx_at(top as int));
        }
        self.states[top].next_position(&classifier, &self.fs);
        self.transition_state = TransitionState::Idle;
        proof {
            let now = *self;
            assert(now.chain_at(top as int) == pre.chain_at(top as int));
            assert(now.cx_at(top as int) == pre.cx_at(top as int));
            assert(pre.loops_ok_at(top as int));
            assert(now.loops_ok_at(top as int)) by {
                if up.len() > 0 {
                    assert(now.upcoming_at(top as int) == up.skip(1));
                    assert(now.states@[top as int].current() == up[0]);
                    assert forall|k: int|
                        0 <= k < now.upcoming_at(top as int).len() implies crate::dir::loop_within(
                        #[trigger] now.upcoming_at(top as int)[k],
                        now.chain_at(top as int).len() as int,
                    ) by {
                        assert(now.upcoming_at(top as int)[k] == up[k + 1]);
                    }
                } else {
                    assert(now.upcoming_at(top as int) =~= seq![]);
                }
            }
            Self::lemma_top_replaced(pre, now);
            pre.lemma_tail_unfold(top as int);
            if up.len() > 0 {
                assert(now.upcoming_at(top as int) == up.skip(1));
                assert(now.states@[top as int].current() == up[0]);
            } else {
                assert(now.upcoming_at(top as int) =~= seq![]);
                now.lemma_remaining_after_content();
            }
        }
    }

    /// Reports the end of the directory at the top of the stack.
    fn yield_after_content(&mut self) -> (r: WalkDirIteratorItem<CP>)
        requires
            old(self).start is None,
            old(self).wf(),
            old(self).states@.len() > 1,
            old(self).states@[old(self).states@.len() - 1].position is AfterContent,
            old(self).transition_state != TransitionState::BeforePopUp,
        ensures
            Self::stepped(*old(self), *final(self), Some(Some(r))),
    {
        let ghost pre = *self;
        self.transition_state = TransitionState::BeforePopUp;
        proof {
            let now = *self;
            let top = pre.states@.len() - 1;
            Self::lemma_same_top_loops(pre, now);
            Self::lemma_top_replaced(pre, now);
            pre.lemma_remaining_after_content();
            assert(pre.remaining() =~= seq![
                Position::<Option<CP::Item>, CP::Item, Error>::AfterContent,
            ] + now.remaining());
        }
        Position::AfterContent
    }

    /// Leaves the directory at the top of the stack, whose end has been
    /// reported.
    fn pop_dir(&mut self)
        requires
            old(self).start is None,
            old(self).wf(),
            old(self).states@.len() > 0,
            old(self).transition_state == TransitionState::BeforePopUp,
        ensures
            Self::stepped(*old(self), *final(self), None),
    {
        let ghost pre = *self;
        let ghost top = self.states@.len() - 1;
        self.states.pop();
        if self.opts.immut.follow_links {
            self.ancestors.pop();
        }
        if self.oldest_opened > self.states.len() {
            self.oldest_opened = self.states.len();
        }
        self.transition_state = TransitionState::AfterPopUp;
        proof {
            let now = *self;
            assert forall|j: int| 0 <= j <= top - 1 implies #[trigger] pre.chain_at(j)
                == now.chain_at(j) by {
                if self.opts.immut.follow_links {
                    assert(now.ancestors@.take(j) =~= pre.ancestors@.take(j));
                } else {
                    assert(now.ancestors@ =~= pre.ancestors@);
                }
            }
            assert forall|j: int| 0 <= j <= top - 1 implies #[trigger] pre.upcoming_at(j)
                == now.upcoming_at(j) by {
                assert(pre.chain_at(j) == now.chain_at(j));
                assert(now.states@[j] == pre.states@[j]);
            }
            assert forall|j: int| 0 <= j < top - 1 implies (#[trigger] pre.states@[j]).current()
                == now.states@[j].current() by {
                assert(now.states@[j] == pre.states@[j]);
            }
            Self::lemma_tail_frame(pre, now, top - 1);
            assert(now.states@[top - 1] == pre.states@[top - 1]);
            assert(pre.is_dir_at(top - 1));
            assert forall|i: int| 0 <= i < now.states@.len() implies (#[trigger] now.states@[i]).wf()
                && now.states@[i].depth == i by {
                assert(now.states@[i] == pre.states@[i]);
            }
            assert forall|i: int| 0 <= i < now.oldest_opened implies !((
            #[trigger] now.states@[i]).content.rd is Opened) by {
                assert(now.states@[i] == pre.states@[i]);
            }
            assert forall|i: int| 0 <= i < top - 1 implies #[trigger] now.is_dir_at(i) by {
                assert(now.states@[i] == pre.states@[i]);
                assert(pre.is_dir_at(i));
            }
            assert(now.is_dir_at(top - 1));
            assert forall|i: int| 0 <= i < top implies #[trigger] now.loops_ok_at(i) by {
                assert(now.states@[i] == pre.states@[i]);
                assert(pre.loops_ok_at(i));
                assert(pre.chain_at(i) == now.chain_at(i));
                assert(pre.upcoming_at(i) == now.upcoming_at(i));
            }
        }
    }

    /// Yields the error that the record at the top of the stack holds, and
    /// goes on to the next record.
    fn yield_error(&mut self, err: Error) -> (r: WalkDirIteratorItem<CP>)
        requires
            old(self).start is None,
            old(self).wf(),
            old(self).states@.len() > 0,
            old(self).states@[old(self).states@.len() - 1].position is Entry,
            old(self).states@[old(self).states@.len() - 1].current().flat == Err::<
                crate::dir::FlatDirEntry,
                ErrorInner,
            >(err.inner),
            err.depth == old(self).states@.len() - 1,
        ensures
            Self::stepped(*old(self), *final(self), Some(Some(r))),
    {
        let ghost pre = *self;
        proof {
            let top = pre.states@.len() - 1;
            pre.env().lemma_entry_trace_error(
                pre.states@[top].current(),
                top as usize,
                pre.chain_at(top),
            );
        }
        self.leave_entry();
        Position::Error(err)
    }

    /// Visits the entry at the top of the stack, which is no directory:
    /// yields it if it may be yielded, and goes on to the next record.
    fn visit_file(&mut self, allow_yield: bool) -> (r: Option<WalkDirIteratorItem<CP>>)
        requires
            old(self).start is None,
            old(self).wf(),
            old(self).states@.len() > 0,
            old(self).states@[old(self).states@.len() - 1].position is Entry,
            old(self).states@[old(self).states@.len() - 1].current().flat is Ok,
            !old(self).states@[old(self).states@.len() - 1].current().flat->Ok_0.is_dir,
            allow_yield == old(self).env().allow_yield(
                old(self).states@[old(self).states@.len() - 1].current(),
                (old(self).states@.len() - 1) as usize,
            ),
        ensures
            Self::stepped(
                *old(self),
                *final(self),
                match r {
                    Some(x) => Some(Some(x)),
                    None => None,
                },
            ),
    {
        let ghost pre = *self;
        proof {
            let top = pre.states@.len() - 1;
            pre.env().lemma_entry_trace_file(
                pre.states@[top].current(),
                top as usize,
                pre.chain_at(top),
            );
        }
        let item = if allow_yield {
            self.make_top_item()
        } else {
            None
        };
        self.leave_entry();
        match item {
            Some(item) => Some(Position::Entry(item)),
            None => {
                proof {
                    assert(pre.remaining() =~= self.remaining());
                }
                None
            },
        }
    }

    /// Visits the directory entry at the top of the stack for the first
    /// time: decides whether the walk goes into it, and yields it if it has
    /// its turn before its content.
    fn visit_dir(&mut self, allow_yield: bool) -> (r: Option<WalkDirIteratorItem<CP>>)
        requires
            old(self).start is None,
            old(self).wf(),
            old(self).states@.len() > 0,
            old(self).is_dir_at(old(self).states@.len() - 1),
            old(self).transition_state == TransitionState::Idle,
            allow_yield == old(self).env().allow_yield(
                old(self).states@[old(self).states@.len() - 1].current(),
                (old(self).states@.len() - 1) as usize,
            ),
        ensures
            Self::stepped(
                *old(self),
                *final(self),
                match r {
                    Some(x) => Some(Some(x)),
                    None => None,
                },
            ),
    {
        let ghost pre = *self;
        let top = self.states.len() - 1;
        if top < self.opts.immut.max_depth {
            self.transition_state = TransitionState::BeforePushDown;
        } else {
            self.transition_state = TransitionState::AfterPopUp;
        }
        proof {
            let now = *self;
            let env = pre.env();
            let rec = pre.states@[top as int].current();
            Self::lemma_same_top_loops(pre, now);
            Self::lemma_top_replaced(pre, now);
            env.lemma_entry_trace_dir(rec, top, pre.chain_at(top as int));
            env.lemma_descend_trace(rec.flat->Ok_0, top, pre.chain_at(top as int));
            assert(now.upcoming_at(top as int) == pre.upcoming_at(top as int));
            assert(now.tail(top as int) == pre.tail(top as int));
            assert(pre.remaining() =~= env.pre_trace(rec, top) + now.remaining());
        }
        let item = if !self.opts.immut.contents_first && allow_yield {
            self.make_top_item()
        } else {
            None
        };
        match item {
            Some(item) => Some(Position::Entry(item)),
            None => {
                proof {
                    assert(pre.remaining() =~= self.remaining());
                }
                None
            },
        }
    }

    /// Stays out of the directory entry at the top of the stack, which is a
    /// link that closes a loop: reports the loop, unless such links are
    /// yielded as entries.
    fn report_loop(&mut self, index: usize) -> (r: Option<WalkDirIteratorItem<CP>>)
        requires
            old(self).start is None,
            old(self).wf(),
            old(self).states@.len() > 0,
            old(self).transition_state == TransitionState::BeforePushDown,
            old(self).states@[old(self).states@.len() - 1].current().flat->Ok_0.loop_link == Some(
                index,
            ),
        ensures
            Self::stepped(
                *old(self),
                *final(self),
                match r {
                    Some(x) => Some(Some(x)),
                    None => None,
                },
            ),
    {
        let ghost pre = *self;
        let top = self.states.len() - 1;
        let inner = self.make_loop_error(index);
        self.transition_state = TransitionState::AfterPopUp;
        proof {
            let now = *self;
            let env = pre.env();
            let rec = pre.states@[top as int].current();
            Self::lemma_same_top_loops(pre, now);
            Self::lemma_top_replaced(pre, now);
            env.lemma_descend_trace(rec.flat->Ok_0, top, pre.chain_at(top as int));
            assert(now.upcoming_at(top as int) == pre.upcoming_at(top as int));
            assert(now.tail(top as int) == pre.tail(top as int));
            assert(pre.remaining() =~= env.descend_trace(
                rec.flat->Ok_0,
                top,
                pre.chain_at(top as int),
            ) + now.remaining());
        }
        if !self.opts.immut.yield_loop_links {
            Some(Position::Error(Error::from_inner(inner, top)))
        } else {
            proof {
                assert(pre.remaining() =~= self.remaining());
            }
            None
        }
    }

    /// Gives the directory entry at the top of the stack its turn after
    /// its content, and goes on to the next record.
    fn finish_dir(&mut self, allow_yield: bool) -> (r: Option<WalkDirIteratorItem<CP>>)
        requires
            old(self).start is None,
            old(self).wf(),
            old(self).states@.len() > 0,
            old(self).transition_state == TransitionState::AfterPopUp,
            allow_yield == old(self).env().allow_yield(
                old(self).states@[old(self).states@.len() - 1].current(),
                (old(self).states@.len() - 1) as usize,
            ),
        ensures
            Self::stepped(
                *old(self),
                *final(self),
                match r {
                    Some(x) => Some(Some(x)),
                    None => None,
                },
            ),
    {
        let ghost pre = *self;
        let item = if self.opts.immut.contents_first && allow_yield {
            self.make_top_item()
        } else {
            None
        };
        self.leave_entry();
        match item {
            Some(item) => Some(Position::Entry(item)),
            None => {
                proof {
                    assert(pre.remaining() =~= self.remaining());
                }
                None
            },
        }
    }

    /// Makes room for one more open stream if the limit is reached: reads
    /// the directory that has been open longest to its end and lets go of
    /// its stream. Tells whether it did.
    fn make_room(&mut self) -> (r: bool)
        requires
            old(self).start is None,
            old(self).wf(),
            old(self).states@.len() > 0,
        ensures
            final(self).start is None,
            final(self).wf(),
            final(self).opts == old(self).opts,
            final(self).fs == old(self).fs,
            final(self).content_processor == old(self).content_processor,
            final(self).root_device == old(self).root_device,
            final(self).ancestors == old(self).ancestors,
            final(self).oldest_opened == old(self).oldest_opened,
            final(self).transition_state == old(self).transition_state,
            final(self).states@.len() == old(self).states@.len(),
            final(self).remaining() == old(self).remaining(),
            final(self).tail(old(self).states@.len() - 1) == old(self).tail(
                old(self).states@.len() - 1,
            ),
            final(self).states@[old(self).states@.len() - 1].position
                == old(self).states@[old(self).states@.len() - 1].position,
            old(self).states@[old(self).states@.len() - 1].position is Entry
                ==> final(self).states@[old(self).states@.len() - 1].current()
                == old(self).states@[old(self).states@.len() - 1].current(),
            r == (old(self).states@.len() - old(self).oldest_opened
                == old(self).opts.immut.max_open),
            r ==> !(final(self).states@[old(self).oldest_opened as int].content.rd is Opened),
    {
        let ghost pre = *self;
        let free = self.states.len() - self.oldest_opened;
        if free == self.opts.immut.max_open {
            let oldest = self.oldest_opened;
            let classifier = Classifier {
                opts: &self.opts.immut,
                root_device: self.root_device,
                ancestors: &self.ancestors,
            };
            proof {
                assert(classifier.cx(oldest) == self.cx_at(oldest as int));
            }
            self.states[oldest].load_all(&classifier, &self.fs);
            proof {
                let now = *self;
                assert forall|j: int| 0 <= j < pre.states@.len() implies #[trigger] pre.same_state(
                    now,
                    j,
                ) by {
                    if j != oldest {
                        assert(now.states@[j] == pre.states@[j]);
                    }
                }
                Self::lemma_same_observations(pre, now);
                assert(pre.same_state(now, pre.states@.len() - 1));
            }
            true
        } else {
            false
        }
    }

    /// Goes into the directory entry at the top of the stack: makes room
    /// for one more open stream if the limit is reached, opens the
    /// directory, and puts its state on the stack, standing at its first
    /// record. Yields the mark of entering the directory. Where the
    /// directory cannot be opened nothing is put on the stack and the error
    /// is yielded.
    fn push_dir(&mut self) -> (r: WalkDirIteratorItem<CP>)
        requires
            old(self).start is None,
            old(self).wf(),
            old(self).states@.len() > 0,
            old(self).transition_state == TransitionState::BeforePushDown,
            old(self).states@[old(self).states@.len() - 1].current().flat->Ok_0.loop_link is None,
        ensures
            Self::stepped(*old(self), *final(self), Some(Some(r))),
    {
        let ghost pre = *self;
        proof {
            assert(self.is_dir_at(self.states@.len() - 1));
        }
        let made_room = self.make_room();
        match self.open_top() {
            Err(e) => self.fail_push(e, Ghost(pre)),
            Ok((rd, ancestor)) => {
                let item = self.make_top_item();
                self.enter_dir(rd, ancestor, made_room, Ghost(pre));
                Position::BeforeContent(item)
            },
        }
    }

    /// Opens the directory entry at the top of the stack, and takes its
    /// handle if links are followed.
    fn open_top(&self) -> (r: Result<(crate::rawdent::ReadDir<E>, Option<Ancestor>), ErrorInner>)
        requires
            self.start is None,
            self.wf(),
            self.states@.len() > 0,
            self.is_dir_at(self.states@.len() - 1),
        ensures
            match r {
                Err(e) => self.env().open_dir(
                    self.states@[self.states@.len() - 1].current().flat->Ok_0,
                    self.chain_at(self.states@.len() - 1),
                ) == Err::<(Seq<Result<RawDirEntry, ErrorInner>>, Seq<Ancestor>), ErrorInner>(e),
                Ok((rd, ancestor)) => {
                    &&& ancestor is Some == self.opts.immut.follow_links
                    &&& self.env().open_dir(
                        self.states@[self.states@.len() - 1].current().flat->Ok_0,
                        self.chain_at(self.states@.len() - 1),
                    ) == Ok::<(Seq<Result<RawDirEntry, ErrorInner>>, Seq<Ancestor>), ErrorInner>(
                        (
                            rd.pending(&self.fs),
                            match ancestor {
                                Some(a) => self.ancestors@.push(a),
                                None => self.ancestors@,
                            },
                        ),
                    )
                },
            },
    {
        proof {
            assert(self.chain_at(self.states@.len() - 1) =~= self.ancestors@);
        }
        let raw = self.top_raw();
        let rd = match raw.read_dir(&self.fs) {
            Ok(rd) => rd,
            Err(e) => {
                return Err(e);
            },
        };
        if self.opts.immut.follow_links {
            match Ancestor::new(&raw, &self.fs) {
                Ok(a) => Ok((rd, Some(a))),
                Err(e) => Err(e),
            }
        } else {
            Ok((rd, None))
        }
    }

    /// Puts the state of the directory that was opened as `rd` on the
    /// stack, standing at its first record.
    fn enter_dir(
        &mut self,
        rd: crate::rawdent::ReadDir<E>,
        ancestor: Option<Ancestor>,
        made_room: bool,
        Ghost(pre): Ghost<Self>,
    )
        requires
            old(self).start is None,
            old(self).wf(),
            old(self).states@.len() > 0,
            old(self).transition_state == TransitionState::BeforePushDown,
            old(self).states@[old(self).states@.len() - 1].current().flat->Ok_0.loop_link is None,
            ancestor is Some == old(self).opts.immut.follow_links,
            made_room == (old(self).states@.len() - old(self).oldest_opened
                == old(self).opts.immut.max_open),
            made_room ==> !(old(self).states@[old(self).oldest_opened as int].content.rd is Opened),
            old(self).env().open_dir(
                old(self).states@[old(self).states@.len() - 1].current().flat->Ok_0,
                old(self).chain_at(old(self).states@.len() - 1),
            ) == Ok::<(Seq<Result<RawDirEntry, ErrorInner>>, Seq<Ancestor>), ErrorInner>(
                (
                    rd.pending(&old(self).fs),
                    match ancestor {
                        Some(a) => old(self).ancestors@.push(a),
                        None => old(self).ancestors@,
                    },
                ),
            ),
            pre.start is None,
            pre.fs == old(self).fs,
            pre.content_processor == old(self).content_processor,
            pre.opts == old(self).opts,
            pre.remaining() == old(self).remaining(),
        ensures
            final(self).wf(),
            final(self).start is None,
            final(self).fs == pre.fs,
            final(self).content_processor == pre.content_processor,
            final(self).opts == pre.opts,
            final(self).transition_state == TransitionState::Idle,
            final(self).states@.len() > 0,
            pre.remaining() == seq![
                Position::<Option<CP::Item>, CP::Item, Error>::BeforeContent(
                    pre.content_processor.spec_process(
                        &old(self).states@[old(self).states@.len() - 1].current().flat->Ok_0,
                        (old(self).states@.len() - 1) as usize,
                    ),
                ),
            ] + final(self).remaining(),
    {
        let ghost mid = *self;
        let top = self.states.len() - 1;
        let ghost env = self.env();
        let ghost rec = self.states@[top as int].current();
        let ghost flat = rec.flat->Ok_0;
        let ghost chain = self.chain_at(top as int);
        let ghost raws = rd.pending(&self.fs);
        proof {
            assert(self.is_dir_at(top as int));
            env.lemma_descend_trace(flat, top, chain);
        }
        match ancestor {
            Some(a) => {
                self.ancestors.push(a);
            },
            None => {},
        }
        let ghost chain2 = self.ancestors@;
        let new_depth = top + 1;
        let classifier = Classifier {
            opts: &self.opts.immut,
            root_device: self.root_device,
            ancestors: &self.ancestors,
        };
        let ghost cx2 = classifier.cx(new_depth);
        proof {
            assert(classifier.chain(new_depth) =~= chain2);
            assert(cx2 == env.cx(chain2));
        }
        let mut state = DirState::from_read_dir(
            rd,
            new_depth,
            &classifier,
            &self.opts.sorter,
            &self.fs,
        );
        let ghost order = state.upcoming(&self.fs, cx2);
        state.next_position(&classifier, &self.fs);
        self.states.push(state);
        if made_room {
            self.oldest_opened = self.oldest_opened + 1;
        }
        self.transition_state = TransitionState::Idle;
        proof {
            let now = *self;
            assert(now.chain_at(new_depth as int) =~= chain2);
            assert(now.cx_at(new_depth as int) == cx2);
            assert forall|k: int| 0 <= k < order.len() implies crate::dir::loop_within(
                #[trigger] order[k],
                chain2.len() as int,
            ) by {
                crate::dir::lemma_visit_order_loops(
                    &self.fs,
                    cx2,
                    new_depth,
                    &self.opts.sorter,
                    raws,
                    k,
                );
            }
            assert(now.loops_ok_at(new_depth as int)) by {
                if order.len() > 0 {
                    assert(now.states@[new_depth as int].current() == order[0]);
                    assert(now.upcoming_at(new_depth as int) == order.skip(1));
                    assert forall|k: int|
                        0 <= k < now.upcoming_at(new_depth as int).len() implies crate::dir::loop_within(
                        #[trigger] now.upcoming_at(new_depth as int)[k],
                        chain2.len() as int,
                    ) by {
                        assert(now.upcoming_at(new_depth as int)[k] == order[k + 1]);
                    }
                } else {
                    assert(now.upcoming_at(new_depth as int) =~= seq![]);
                }
            }
            Self::lemma_pushed(mid, now);
            Self::lemma_entered(mid, now, order);
        }
    }

    /// What is to come after a directory was entered: its content, and
    /// what followed going into it before.
    proof fn lemma_entered(mid: Self, now: Self, order: Seq<DirEntryRecord>)
        requires
            mid.start is None,
            mid.states@.len() > 0,
            mid.transition_state == TransitionState::BeforePushDown,
            mid.is_dir_at(mid.states@.len() - 1),
            mid.states@.len() - 1 < mid.opts.immut.max_depth,
            mid.states@[mid.states@.len() - 1].current().flat->Ok_0.loop_link is None,
            now.start is None,
            now.env() == mid.env(),
            now.transition_state == TransitionState::Idle,
            now.states@.len() == mid.states@.len() + 1,
            !(now.states@[mid.states@.len() as int].position is BeforeContent),
            now.tail(mid.states@.len() - 1) == mid.tail(mid.states@.len() - 1),
            now.below(mid.states@.len() as int) == seq![
                Position::<Option<CP::Item>, CP::Item, Error>::AfterContent,
            ] + mid.env().post_trace(
                mid.states@[mid.states@.len() - 1].current(),
                (mid.states@.len() - 1) as usize,
            ) + mid.tail(mid.states@.len() - 1),
            mid.env().open_dir(
                mid.states@[mid.states@.len() - 1].current().flat->Ok_0,
                mid.chain_at(mid.states@.len() - 1),
            ) matches Ok((raws, chain2)) && chain2 == now.chain_at(mid.states@.len() as int)
                && order == crate::dir::spec_visit_order(
                &mid.fs,
                mid.env().cx(chain2),
                mid.states@.len() as usize,
                &mid.opts.sorter,
                raws,
            ),
            order.len() == 0 ==> now.states@[mid.states@.len() as int].position is AfterContent,
            order.len() > 0 ==> {
                &&& now.states@[mid.states@.len() as int].position is Entry
                &&& now.states@[mid.states@.len() as int].current() == order[0]
                &&& now.upcoming_at(mid.states@.len() as int) == order.skip(1)
            },
        ensures
            mid.remaining() == seq![
                Position::<Option<CP::Item>, CP::Item, Error>::BeforeContent(
                    mid.content_processor.spec_process(
                        &mid.states@[mid.states@.len() - 1].current().flat->Ok_0,
                        (mid.states@.len() - 1) as usize,
                    ),
                ),
            ] + now.remaining(),
    {
        let top = (mid.states@.len() - 1) as usize;
        let new_depth = (top + 1) as usize;
        let env = mid.env();
        let rec = mid.states@[top as int].current();
        let flat = rec.flat->Ok_0;
        let chain = mid.chain_at(top as int);
        let chain2 = now.chain_at(new_depth as int);
        let bc = seq![
            Position::<Option<CP::Item>, CP::Item, Error>::BeforeContent(
                env.cp.spec_process(&flat, top),
            ),
        ];
        let ac = seq![Position::<Option<CP::Item>, CP::Item, Error>::AfterContent];
        let post = env.post_trace(rec, top);
        let t = mid.tail(top as int);
        let inner = env.content_trace(order, new_depth, chain2);
        let descend = env.descend_trace(flat, top, chain);
        assert(descend == bc + inner + ac) by {
            env.lemma_descend_trace(flat, top, chain);
        }
        assert(mid.remaining() == descend + post + t);
        assert(now.below(new_depth as int) == ac + post + t);
        assert(now.remaining() == inner + (ac + post + t)) by {
            if order.len() > 0 {
                env.lemma_content_trace_step(order, new_depth, chain2);
                now.lemma_tail_unfold(new_depth as int);
                let first = env.entry_trace(order[0], new_depth, chain2);
                let others = env.content_trace(order.skip(1), new_depth, chain2);
                assert(now.remaining() == first + (others + now.below(new_depth as int)));
                assert(first + (others + (ac + post + t)) =~= (first + others) + (ac + post + t));
            } else {
                env.lemma_content_trace_empty(order, new_depth, chain2);
                now.lemma_remaining_after_content();
                assert(inner + (ac + post + t) =~= ac + post + t);
            }
        }
        assert((bc + inner + ac) + post + t =~= bc + (inner + (ac + post + t)));
    }

    /// A copy of the raw entry at the top of the stack.
    fn top_raw(&self) -> (r: RawDirEntry)
        requires
            self.start is None,
            self.wf(),
            self.states@.len() > 0,
            self.states@[self.states@.len() - 1].position is Entry,
            self.states@[self.states@.len() - 1].current().flat is Ok,
        ensures
            r == self.states@[self.states@.len() - 1].current().flat->Ok_0.raw,
    {
        let top = self.states.len() - 1;
        match self.states[top].get_current_position() {
            Position::Entry(rflat) => rflat.as_flat().raw.clone(),
            _ => {
                proof {
                    assert(false);
                }
                RawDirEntry {
                    path: String::new(),
                    metadata: crate::fs::Metadata {
                        file_type: crate::fs::FileType::Other,
                        ino: 0,
                        len: 0,
                    },
                    follow_link: false,
                    kind: crate::rawdent::RawDirEntryKind::Root,
                }
            },
        }
    }

    /// Gives up going into the directory entry at the top of the stack,
    /// which could not be opened: yields the error.
    fn fail_push(&mut self, e: ErrorInner, Ghost(pre): Ghost<Self>) -> (r: WalkDirIteratorItem<CP>)
        requires
            old(self).start is None,
            old(self).wf(),
            old(self).states@.len() > 0,
            old(self).transition_state == TransitionState::BeforePushDown,
            pre.start is None,
            pre.states@.len() == old(self).states@.len(),
            pre.env() == old(self).env(),
            pre.transition_state == TransitionState::BeforePushDown,
            pre.remaining() == old(self).remaining(),
            pre.chain_at(pre.states@.len() - 1) == old(self).chain_at(pre.states@.len() - 1),
            pre.states@[pre.states@.len() - 1].position is Entry,
            pre.states@[pre.states@.len() - 1].current()
                == old(self).states@[pre.states@.len() - 1].current(),
            old(self).states@[pre.states@.len() - 1].current().flat->Ok_0.loop_link is None,
            old(self).env().open_dir(
                old(self).states@[pre.states@.len() - 1].current().flat->Ok_0,
                old(self).chain_at(pre.states@.len() - 1),
            ) == Err::<(Seq<Result<RawDirEntry, ErrorInner>>, Seq<Ancestor>), ErrorInner>(e),
        ensures
            Self::stepped(pre, *final(self), Some(Some(r))),
    {
        let ghost mid = *self;
        let top = self.states.len() - 1;
        self.transition_state = TransitionState::AfterPopUp;
        proof {
            let now = *self;
            let env = mid.env();
            let rec = mid.states@[top as int].current();
            Self::lemma_same_top_loops(mid, now);
            Self::lemma_top_replaced(mid, now);
            env.lemma_descend_trace(rec.flat->Ok_0, top, mid.chain_at(top as int));
            assert(now.upcoming_at(top as int) == mid.upcoming_at(top as int));
            assert(now.tail(top as int) == mid.tail(top as int));
            assert(mid.remaining() =~= seq![
                Position::<Option<CP::Item>, CP::Item, Error>::Error(
                    Error { depth: top, inner: e },
                ),
            ] + now.remaining());
        }
        Position::Error(Error::from_inner(e, top))
    }

    /// A walk that has put one more state on its stack is in order, and
    /// what follows the state below the new one is what it was.
    pub proof fn lemma_pushed(mid: Self, now: Self)
        requires
            mid.start is None,
            mid.wf_running(),
            mid.opts.immut.max_open >= 1,
            mid.transition_state == TransitionState::BeforePushDown,
            now.start is None,
            now.opts == mid.opts,
            now.fs == mid.fs,
            now.content_processor == mid.content_processor,
            now.root_device == mid.root_device,
            now.transition_state == TransitionState::Idle,
            now.states@.len() == mid.states@.len() + 1,
            forall|j: int| 0 <= j < mid.states@.len() ==> (#[trigger] now.states@[j]) == mid.states@[j],
            now.states@[mid.states@.len() as int].wf(),
            now.states@[mid.states@.len() as int].depth == mid.states@.len(),
            !(now.states@[mid.states@.len() as int].position is BeforeContent),
            now.loops_ok_at(mid.states@.len() as int),
            now.ancestors@.len() == (if mid.opts.immut.follow_links {
                mid.ancestors@.len() + 1
            } else {
                0
            }),
            forall|j: int| 0 <= j < mid.ancestors@.len() ==> now.ancestors@[j] == mid.ancestors@[j],
            now.oldest_opened == mid.oldest_opened || (now.oldest_opened == mid.oldest_opened + 1
                && mid.states@.len() - mid.oldest_opened == mid.opts.immut.max_open && !(
            mid.states@[mid.oldest_opened as int].content.rd is Opened)),
            now.oldest_opened == mid.oldest_opened ==> mid.states@.len() - mid.oldest_opened
                < mid.opts.immut.max_open,
        ensures
            now.wf_running(),
            now.env() == mid.env(),
            now.tail(mid.states@.len() - 1) == mid.tail(mid.states@.len() - 1),
            now.below(mid.states@.len() as int) == seq![
                Position::<Option<CP::Item>, CP::Item, Error>::AfterContent,
            ] + mid.env().post_trace(
                mid.states@[mid.states@.len() - 1].current(),
                (mid.states@.len() - 1) as usize,
            ) + mid.tail(mid.states@.len() - 1),
    {
        let n = mid.states@.len() as int;
        let top = n - 1;
        assert forall|j: int| 0 <= j <= top implies #[trigger] mid.chain_at(j) == now.chain_at(
            j,
        ) by {
            if mid.opts.immut.follow_links {
                assert(now.ancestors@.take(j) =~= mid.ancestors@.take(j));
            } else {
                assert(now.ancestors@ =~= mid.ancestors@);
            }
        }
        assert forall|j: int| 0 <= j <= top implies #[trigger] mid.upcoming_at(j)
            == now.upcoming_at(j) by {
            assert(mid.chain_at(j) == now.chain_at(j));
            assert(now.states@[j] == mid.states@[j]);
        }
        assert forall|j: int| 0 <= j < top implies (#[trigger] mid.states@[j]).current()
            == now.states@[j].current() by {
            assert(now.states@[j] == mid.states@[j]);
        }
        Self::lemma_tail_frame(mid, now, top);
        assert(now.states@[top] == mid.states@[top]);
        assert forall|i: int| 0 <= i < now.states@.len() implies (#[trigger] now.states@[i]).wf()
            && now.states@[i].depth == i by {
            if i <= top {
                assert(now.states@[i] == mid.states@[i]);
            }
        }
        assert forall|i: int| 0 <= i < now.oldest_opened implies !((
        #[trigger] now.states@[i]).content.rd is Opened) by {
            assert(now.states@[i] == mid.states@[i]);
        }
        assert forall|i: int| 0 <= i < n implies #[trigger] now.is_dir_at(i) by {
            assert(now.states@[i] == mid.states@[i]);
            if i < top {
                assert(mid.is_dir_at(i));
            }
        }
        assert forall|i: int| 0 <= i < n + 1 implies #[trigger] now.loops_ok_at(i) by {
            if i < n {
                assert(now.states@[i] == mid.states@[i]);
                assert(mid.loops_ok_at(i));
                assert(mid.chain_at(i) == now.chain_at(i));
                assert(mid.upcoming_at(i) == now.upcoming_at(i));
            }
        }
    }

    /// Takes one round: looks at where the walk stands and does what is
    /// due there.
    fn step(&mut self) -> (r: Option<Option<WalkDirIteratorItem<CP>>>)
        requires
            old(self).start is None,
            old(self).wf(),
            old(self).states@.len() > 0,
        ensures
            Self::stepped(*old(self), *final(self), r),
    {
        let top = self.states.len() - 1;
        match self.states[top].position {
            DirPosition::BeforeContent => {
                proof {
                    assert(false);
                }
                Some(None)
            },
            DirPosition::AfterContent => {
                if top == 0 {
                    proof {
                        self.lemma_remaining_after_content();
                    }
                    return Some(None);
                }
                match self.transition_state {
                    TransitionState::BeforePopUp => {
                        self.pop_dir();
                        None
                    },
                    _ => Some(Some(self.yield_after_content())),
                }
            },
            DirPosition::Entry => {
                match self.inspect_top() {
                    TopRecord::Error(err) => Some(Some(self.yield_error(err))),
                    TopRecord::Entry { is_dir, allow_yield, loop_link } => {
                        let yielded = if !is_dir {
                            self.visit_file(allow_yield)
                        } else {
                            match self.transition_state {
                                TransitionState::Idle => self.visit_dir(allow_yield),
                                TransitionState::BeforePushDown => match loop_link {
                                    Some(index) => self.report_loop(index),
                                    None => Some(self.push_dir()),
                                },
                                TransitionState::AfterPopUp => self.finish_dir(allow_yield),
                                TransitionState::BeforePopUp => {
                                    proof {
                                        assert(false);
                                    }
                                    None
                                },
                            }
                        };
                        match yielded {
                            Some(x) => Some(Some(x)),
                            None => None,
                        }
                    },
                }
            },
        }
    }

    /// Advances the walk and yields the next step; `None` when the walk
    /// is over, and from then on.
    ///
    /// An error that is yielded in place of an entry or of the content of a
    /// directory does not end the walk; an error on the root does.
    pub fn next(&mut self) -> (r: Option<WalkDirIteratorItem<CP>>)
        requires
            old(self).wf(),
        ensures
            final(self).wf(),
            final(self).start is None,
            final(self).fs == old(self).fs,
            final(self).content_processor == old(self).content_processor,
            final(self).opts == old(self).opts,
            old(self).remaining().len() == 0 ==> r is None && final(self).remaining().len() == 0,
            old(self).remaining().len() > 0 ==> r == Some(old(self).remaining()[0])
                && final(self).remaining() == old(self).remaining().skip(1),
            final(self).states@.len() <= final(self).opts.immut.max_depth + 1,
            final(self).open_streams() <= final(self).opts.immut.max_open,
            r is Some && final(self).transition_state == TransitionState::BeforePopUp ==> r
                == Some(Position::<Option<CP::Item>, CP::Item, Error>::AfterContent),
            r is Some && r->Some_0 is Entry ==> final(self).states@.len() > 0,
            r is Some && r->Some_0 is Entry ==> final(self).after_skip()
                == crate::trace::skip_to_close::<CP>(final(self).remaining(), 0),
    {
        match self.start.take() {
            Some(root) => {
                match self.init(&root) {
                    Ok(_) => {},
                    Err(e) => {
                        proof {
                            self.lemma_open_streams();
                        }
                        return Some(Position::Error(Error::from_inner(e, 0)));
                    },
                }
            },
            None => {},
        }
        if self.states.len() == 0 {
            proof {
                self.lemma_open_streams();
            }
            return None;
        }
        loop
            invariant
                self.wf(),
                self.start is None,
                self.states@.len() > 0,
                self.fs == old(self).fs,
                self.content_processor == old(self).content_processor,
                self.opts == old(self).opts,
                self.remaining() == old(self).remaining(),
            decreases self.rank_a(), self.rank_b(),
        {
            let ghost pre = *self;
            match self.step() {
                Some(Some(x)) => {
                    proof {
                        assert((seq![x] + self.remaining()).skip(1) =~= self.remaining());
                        self.lemma_open_streams();
                        if x is Entry {
                            self.lemma_below_is_skip_to_close();
                        }
                    }
                    return Some(x);
                },
                Some(None) => {
                    proof {
                        self.lemma_open_streams();
                    }
                    return None;
                },
                None => {},
            }
        }
    }

    /// Runs the walk to its end and gives all its steps, in order.
    pub fn collect(&mut self) -> (r: Vec<WalkDirIteratorItem<CP>>)
        requires
            old(self).wf(),
        ensures
            final(self).wf(),
            final(self).fs == old(self).fs,
            final(self).content_processor == old(self).content_processor,
            final(self).opts == old(self).opts,
            r@ == old(self).remaining(),
            final(self).remaining().len() == 0,
    {
        let mut out: Vec<WalkDirIteratorItem<CP>> = Vec::new();
        loop
            invariant
                self.wf(),
                self.fs == old(self).fs,
                self.content_processor == old(self).content_processor,
                self.opts == old(self).opts,
                out@ + self.remaining() == old(self).remaining(),
            ensures
                self.wf(),
                self.fs == old(self).fs,
                self.content_processor == old(self).content_processor,
                self.opts == old(self).opts,
                out@ == old(self).remaining(),
                self.remaining().len() == 0,
            decreases self.remaining().len(),
        {
            let ghost before = self.remaining();
            let ghost sofar = out@;
            match self.next() {
                Some(step) => {
                    out.push(step);
                    proof {
                        assert(sofar.push(step) + before.skip(1) =~= sofar + before);
                    }
                },
                None => {
                    proof {
                        assert(sofar + before =~= sofar);
                    }
                    break ;
                },
            }
        }
        out
    }

    /// Puts the state at the top of the stack behind its content: what is
    /// left of the directory at which the walk stands is never visited.
    ///
    /// The directory in question is the one whose entries are being
    /// yielded: after the mark of entering a directory it is that directory;
    /// after an entry it is the directory that holds the entry.
    pub fn skip_current_dir(&mut self)
        requires
            old(self).wf(),
        ensures
            final(self).wf(),
            final(self).start == old(self).start,
            final(self).env() == old(self).env(),
            final(self).states@.len() == old(self).states@.len(),
            final(self).remaining() == old(self).after_skip(),
    {
        let n = self.states.len();
        if n > 0 {
            let ghost pre = *self;
            let top = n - 1;
            self.states[top].skip_all();
            self.transition_state = TransitionState::Idle;
            proof {
                let now = *self;
                assert(now.upcoming_at(top as int) =~= seq![]);
                Self::lemma_top_replaced(pre, now);
                now.lemma_remaining_after_content();
            }
        }
    }

    /// Reads the directory at which the walk stands to its end and makes
    /// the caller's items of those of its entries that `filter` lets
    /// through, in the order in which they were read (or sorted). `None`
    /// where the walk has not begun, or has ended on an error of its root.
    /// The walk goes on as if nothing had happened.
    pub fn get_current_dir_content(&mut self, filter: ContentFilter) -> (r: Option<Vec<CP::Item>>)
        requires
            old(self).wf(),
        ensures
            final(self).wf(),
            final(self).start == old(self).start,
            final(self).env() == old(self).env(),
            final(self).remaining() == old(self).remaining(),
            r is Some == (old(self).states@.len() > 0),
            r matches Some(v) ==> v@ == crate::dir::spec_clone_all(
                &old(self).content_processor,
                (old(self).states@.len() - 1) as usize,
                filter,
                old(self).states@[old(self).states@.len() - 1].content.all_records(
                    &old(self).fs,
                    old(self).cx_at(old(self).states@.len() - 1),
                    (old(self).states@.len() - 1) as usize,
                ),
            ),
    {
        let n = self.states.len();
        if n == 0 {
            return None;
        }
        let ghost pre = *self;
        let top = n - 1;
        let classifier = Classifier {
            opts: &self.opts.immut,
            root_device: self.root_device,
            ancestors: &self.ancestors,
        };
        proof {
            assert(classifier.cx(top) == self.cx_at(top as int));
        }
        let content = self.states[top].clone_all_content(
            filter,
            &classifier,
            &self.content_processor,
            &self.fs,
        );
        proof {
            let now = *self;
            assert forall|j: int| 0 <= j < pre.states@.len() implies #[trigger] pre.same_state(
                now,
                j,
            ) by {
                if j != top {
                    assert(now.states@[j] == pre.states@[j]);
                }
            }
            Self::lemma_same_observations(pre, now);
        }
        Some(content)
    }
}

} // verus!
