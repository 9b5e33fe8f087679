//! Iterators over a walk that leave steps out: the classic iterator, which
//! yields entries and errors alone, and the filters, which yield only the
//! entries that pass a test.
use std::marker::PhantomData;
use vstd::prelude::*;
use crate::cp::ContentProcessor;
use crate::error::Error;
use crate::sort::Sorter;
use crate::storage::StorageExt;
use crate::trace::{lemma_skip_to_close_len, skip_to_close, WalkDirIteratorItem};
use crate::walk::WalkDirIterator;
use crate::wd::Position;

verus! {

/// What the iterators over the steps of a walk have in common.
pub trait WalkDirIter<CP: ContentProcessor> {
    /// The iterator is in order.
    spec fn iter_wf(&self) -> bool;

    /// All that the iterator has still to yield, in order.
    spec fn iter_remaining(&self) -> Seq<WalkDirIteratorItem<CP>>;

    /// All that the iterator would have to yield behind the directory at
    /// which the walk stands.
    spec fn iter_after_skip(&self) -> Seq<WalkDirIteratorItem<CP>>;

    /// Yields the next step; `None` when the walk is over. After an entry
    /// the walk stands in the directory that holds the entry: what follows
    /// that directory is what is left behind the mark of leaving it.
    fn next_step(&mut self) -> (r: Option<WalkDirIteratorItem<CP>>)
        requires
            old(self).iter_wf(),
        ensures
            final(self).iter_wf(),
            old(self).iter_remaining().len() == 0 ==> r is None && final(self).iter_remaining().len()
                == 0,
            old(self).iter_remaining().len() > 0 ==> r == Some(old(self).iter_remaining()[0])
                && final(self).iter_remaining() == old(self).iter_remaining().skip(1),
            r is Some && r->Some_0 is Entry ==> final(self).iter_after_skip() == skip_to_close::<
                CP,
            >(final(self).iter_remaining(), 0),
    ;

    /// Puts the walk behind the content of the directory at which it
    /// stands.
    fn skip_dir(&mut self)
        requires
            old(self).iter_wf(),
        ensures
            final(self).iter_wf(),
            final(self).iter_remaining() == old(self).iter_after_skip(),
    ;
}

impl<E: StorageExt, CP: ContentProcessor, S: Sorter> WalkDirIter<CP> for WalkDirIterator<E, CP, S> {
    open spec fn iter_wf(&self) -> bool {
        self.wf()
    }

    open spec fn iter_remaining(&self) -> Seq<WalkDirIteratorItem<CP>> {
        self.remaining()
    }

    open spec fn iter_after_skip(&self) -> Seq<WalkDirIteratorItem<CP>> {
        self.after_skip()
    }

    fn next_step(&mut self) -> (r: Option<WalkDirIteratorItem<CP>>) {
        self.next()
    }

    fn skip_dir(&mut self) {
        self.skip_current_dir()
    }
}

impl<E: StorageExt, CP: ContentProcessor, S: Sorter> WalkDirIterator<E, CP, S> {
    /// Yields only the entries that pass the test `predicate`, and stays
    /// out of the directories that fail it.
    pub fn filter_entry<P: Fn(&CP::Item) -> bool>(self, predicate: P) -> (r: FilterEntry<CP, Self, P>)
        ensures
            r.inner == self,
            r.predicate == predicate,
            r.wf() == (self.wf() && predicate_wf(predicate)),
            r.remaining() == filter_trace::<CP, P>(predicate, self.remaining()),
            r.after_skip() == filter_trace::<CP, P>(predicate, self.after_skip()),
    {
        FilterEntry { inner: self, predicate, _cp: PhantomData }
    }

    /// Yields entries and errors alone.
    pub fn into_classic(self) -> (r: ClassicIter<CP, Self>)
        ensures
            r.inner == self,
            r.wf() == self.wf(),
            r.remaining() == classic_trace::<CP>(self.remaining()),
            r.after_skip() == classic_trace::<CP>(self.after_skip()),
    {
        ClassicIter { inner: self, _cp: PhantomData }
    }
}

/// The test `predicate` is fit for use: it can be called on every entry,
/// and never answers both ways on one.
pub open spec fn predicate_wf<T, P: Fn(&T) -> bool>(predicate: P) -> bool {
    &&& forall|x: &T| #[trigger] call_requires(predicate, (x,))
    &&& forall|x: &T|
        !(#[trigger] call_ensures(predicate, (x,), true) && call_ensures(predicate, (x,), false))
}

/// The entry passes the test `predicate`.
pub open spec fn predicate_accepts<T, P: Fn(&T) -> bool>(predicate: P, item: &T) -> bool {
    call_ensures(predicate, (item,), true)
}

/// The steps `s` of a walk as a filter lets them through: an entry that
/// fails the test is dropped; if it is a directory, all that is left of the
/// directory at which the walk stands is dropped with it. Everything else
/// passes.
pub open spec fn filter_trace<CP: ContentProcessor, P: Fn(&CP::Item) -> bool>(
    predicate: P,
    s: Seq<WalkDirIteratorItem<CP>>,
) -> Seq<WalkDirIteratorItem<CP>>
    decreases s.len(),
{
    if s.len() == 0 {
        seq![]
    } else {
        match s[0] {
            Position::Entry(item) => if predicate_accepts(predicate, &item) {
                seq![s[0]] + filter_trace::<CP, P>(predicate, s.skip(1))
            } else if CP::spec_is_dir(&item) {
                proof {
                    lemma_skip_to_close_len::<CP>(s.skip(1), 0);
                }
                filter_trace::<CP, P>(predicate, skip_to_close::<CP>(s.skip(1), 0))
            } else {
                filter_trace::<CP, P>(predicate, s.skip(1))
            },
            _ => seq![s[0]] + filter_trace::<CP, P>(predicate, s.skip(1)),
        }
    }
}

/// What a filter lets through of what is left behind a directory is what
/// is left, behind that directory, of what the filter lets through: a
/// filter drops the rest of a directory at most, never the mark that leaves
/// it.
pub proof fn lemma_filter_skip_to_close<CP: ContentProcessor, P: Fn(&CP::Item) -> bool>(
    predicate: P,
    s: Seq<WalkDirIteratorItem<CP>>,
    open: nat,
)
    ensures
        skip_to_close::<CP>(filter_trace::<CP, P>(predicate, s), open) == filter_trace::<CP, P>(
            predicate,
            skip_to_close::<CP>(s, open),
        ),
    decreases s.len(),
{
    if s.len() > 0 {
        let rest = s.skip(1);
        let filtered_rest = filter_trace::<CP, P>(predicate, rest);
        match s[0] {
            Position::Entry(item) => {
                if predicate_accepts(predicate, &item) {
                    lemma_filter_skip_to_close::<CP, P>(predicate, rest, open);
                    assert((seq![s[0]] + filtered_rest).skip(1) =~= filtered_rest);
                } else if CP::spec_is_dir(&item) {
                    let behind = skip_to_close::<CP>(rest, 0);
                    lemma_skip_to_close_len::<CP>(rest, 0);
                    lemma_filter_skip_to_close::<CP, P>(predicate, behind, open);
                    crate::trace::lemma_skip_to_close_twice::<CP>(rest, 0, open);
                } else {
                    lemma_filter_skip_to_close::<CP, P>(predicate, rest, open);
                }
            },
            Position::BeforeContent(_) => {
                lemma_filter_skip_to_close::<CP, P>(predicate, rest, open + 1);
                assert((seq![s[0]] + filtered_rest).skip(1) =~= filtered_rest);
            },
            Position::AfterContent => {
                if open > 0 {
                    lemma_filter_skip_to_close::<CP, P>(predicate, rest, (open - 1) as nat);
                }
                assert((seq![s[0]] + filtered_rest).skip(1) =~= filtered_rest);
            },
            Position::Error(_) => {
                lemma_filter_skip_to_close::<CP, P>(predicate, rest, open);
                assert((seq![s[0]] + filtered_rest).skip(1) =~= filtered_rest);
            },
        }
    }
}

/// A walk that yields only the entries that pass a test, and stays out of
/// the directories that fail it.
///
/// The test is asked about entries alone: the marks of entering and
/// leaving and the errors pass without being shown to it.
pub struct FilterEntry<CP, I, P> {
    pub inner: I,
    pub predicate: P,
    /// The processor that makes the items of the walk.
    pub _cp: PhantomData<CP>,
}

impl<CP: ContentProcessor, I: WalkDirIter<CP>, P: Fn(&CP::Item) -> bool> FilterEntry<CP, I, P> {
    /// The walk is in order and the test fit for use.
    pub open spec fn wf(&self) -> bool {
        self.inner.iter_wf() && predicate_wf(self.predicate)
    }

    /// All that the iterator has still to yield, in order.
    pub open spec fn remaining(&self) -> Seq<WalkDirIteratorItem<CP>> {
        filter_trace::<CP, P>(self.predicate, self.inner.iter_remaining())
    }

    /// All that the iterator would have to yield behind the directory at
    /// which the walk stands.
    pub open spec fn after_skip(&self) -> Seq<WalkDirIteratorItem<CP>> {
        filter_trace::<CP, P>(self.predicate, self.inner.iter_after_skip())
    }

    /// Advances the walk to the next step that the filter lets through and
    /// yields it; `None` when the walk is over.
    pub fn next(&mut self) -> (r: Option<WalkDirIteratorItem<CP>>)
        requires
            old(self).wf(),
        ensures
            final(self).wf(),
            final(self).predicate == old(self).predicate,
            old(self).remaining().len() == 0 ==> r is None && final(self).remaining().len() == 0,
            old(self).remaining().len() > 0 ==> r == Some(old(self).remaining()[0])
                && final(self).remaining() == old(self).remaining().skip(1),
            r is Some && r->Some_0 is Entry ==> final(self).after_skip() == skip_to_close::<
                CP,
            >(final(self).remaining(), 0),
    {
        loop
            invariant
                self.wf(),
                self.predicate == old(self).predicate,
                self.remaining() == old(self).remaining(),
            decreases self.inner.iter_remaining().len(),
        {
            let ghost before = self.inner.iter_remaining();
            let item = match self.inner.next_step() {
                Some(item) => item,
                None => {
                    return None;
                },
            };
            let ghost rest = self.inner.iter_remaining();
            match item {
                Position::Entry(dent) => {
                    if (self.predicate)(&dent) {
                        proof {
                            let f = filter_trace::<CP, P>(self.predicate, rest);
                            assert((seq![before[0]] + f).skip(1) =~= f);
                            lemma_filter_skip_to_close::<CP, P>(self.predicate, rest, 0);
                        }
                        return Some(Position::Entry(dent));
                    }
                    if CP::is_dir(&dent) {
                        proof {
                            lemma_skip_to_close_len::<CP>(rest, 0);
                        }
                        self.inner.skip_dir();
                    }
                },
                other => {
                    proof {
                        let f = filter_trace::<CP, P>(self.predicate, rest);
                        assert((seq![before[0]] + f).skip(1) =~= f);
                    }
                    return Some(other);
                },
            }
        }
    }

    /// Puts the walk behind the content of the directory at which it
    /// stands.
    pub fn skip_current_dir(&mut self)
        requires
            old(self).wf(),
        ensures
            final(self).wf(),
            final(self).predicate == old(self).predicate,
            final(self).remaining() == old(self).after_skip(),
    {
        self.inner.skip_dir();
    }

    /// Adds a test: an entry is yielded only if it passes this one too.
    pub fn filter_entry<P2: Fn(&CP::Item) -> bool>(
        self,
        predicate: P2,
    ) -> (r: FilterEntry<CP, Self, P2>)
        ensures
            r.inner == self,
            r.predicate == predicate,
            r.wf() == (self.wf() && predicate_wf(predicate)),
            r.remaining() == filter_trace::<CP, P2>(predicate, self.remaining()),
            r.after_skip() == filter_trace::<CP, P2>(predicate, self.after_skip()),
    {
        FilterEntry { inner: self, predicate, _cp: PhantomData }
    }

    /// Yields entries and errors alone.
    pub fn into_classic(self) -> (r: ClassicIter<CP, Self>)
        ensures
            r.inner == self,
            r.wf() == self.wf(),
            r.remaining() == classic_trace::<CP>(self.remaining()),
            r.after_skip() == classic_trace::<CP>(self.after_skip()),
            r.inner.iter_wf() == self.wf(),
            r.inner.iter_remaining() == self.remaining(),
            r.inner.iter_after_skip() == self.after_skip(),
    {
        ClassicIter { inner: self, _cp: PhantomData }
    }
}

impl<CP: ContentProcessor, I: WalkDirIter<CP>, P: Fn(&CP::Item) -> bool> WalkDirIter<
    CP,
> for FilterEntry<CP, I, P> {
    open spec fn iter_wf(&self) -> bool {
        self.wf()
    }

    open spec fn iter_remaining(&self) -> Seq<WalkDirIteratorItem<CP>> {
        self.remaining()
    }

    open spec fn iter_after_skip(&self) -> Seq<WalkDirIteratorItem<CP>> {
        self.after_skip()
    }

    fn next_step(&mut self) -> (r: Option<WalkDirIteratorItem<CP>>) {
        self.next()
    }

    fn skip_dir(&mut self) {
        self.skip_current_dir()
    }
}

/// The entries and errors among the steps `s`, in order: what is left of
/// a walk when the marks of entering and leaving directories are dropped.
pub open spec fn classic_trace<CP: ContentProcessor>(s: Seq<WalkDirIteratorItem<CP>>) -> Seq<
    Result<CP::Item, Error>,
>
    decreases s.len(),
{
    if s.len() == 0 {
        seq![]
    } else {
        let rest = classic_trace::<CP>(s.skip(1));
        match s[0] {
            Position::Entry(item) => seq![Ok(item)] + rest,
            Position::Error(e) => seq![Err(e)] + rest,
            _ => rest,
        }
    }
}

/// What the iterators over the entries and errors of a walk have in
/// common.
pub trait ClassicWalkDirIter<CP: ContentProcessor> {
    /// The iterator is in order.
    spec fn iter_wf(&self) -> bool;

    /// All that the iterator has still to yield, in order.
    spec fn iter_remaining(&self) -> Seq<Result<CP::Item, Error>>;

    /// All that the iterator would have to yield behind the directory at
    /// which the walk stands.
    spec fn iter_after_skip(&self) -> Seq<
        Result<CP::Item, Error>,
    >;

    /// Yields the next entry or error; `None` when the walk is over.
    fn next_entry(&mut self) -> (r: Option<
        Result<CP::Item, Error>,
    >)
        requires
            old(self).iter_wf(),
        ensures
            final(self).iter_wf(),
            old(self).iter_remaining().len() == 0 ==> r is None && final(self).iter_remaining().len()
                == 0,
            old(self).iter_remaining().len() > 0 ==> r == Some(old(self).iter_remaining()[0])
                && final(self).iter_remaining() == old(self).iter_remaining().skip(1),
    ;

    /// Puts the walk behind the content of the directory at which it
    /// stands.
    fn skip_dir(&mut self)
        requires
            old(self).iter_wf(),
        ensures
            final(self).iter_wf(),
            final(self).iter_remaining() == old(self).iter_after_skip(),
    ;
}

/// A walk that yields entries and errors alone.
pub struct ClassicIter<CP, I> {
    pub inner: I,
    /// The processor that makes the items of the walk.
    pub _cp: PhantomData<CP>,
}

impl<CP: ContentProcessor, I: WalkDirIter<CP>> ClassicIter<CP, I> {
    /// The walk is in order.
    pub open spec fn wf(&self) -> bool {
        self.inner.iter_wf()
    }

    /// All that the iterator has still to yield, in order.
    pub open spec fn remaining(&self) -> Seq<
        Result<CP::Item, Error>,
    > {
        classic_trace::<CP>(self.inner.iter_remaining())
    }

    /// All that the iterator would have to yield behind the directory at
    /// which the walk stands.
    pub open spec fn after_skip(&self) -> Seq<
        Result<CP::Item, Error>,
    > {
        classic_trace::<CP>(self.inner.iter_after_skip())
    }

    /// Advances the walk to its next entry or error and yields it; `None`
    /// when the walk is over.
    pub fn next(&mut self) -> (r: Option<Result<CP::Item, Error>>)
        requires
            old(self).wf(),
        ensures
            final(self).wf(),
            old(self).remaining().len() == 0 ==> r is None && final(self).remaining().len() == 0,
            old(self).remaining().len() > 0 ==> r == Some(old(self).remaining()[0])
                && final(self).remaining() == old(self).remaining().skip(1),
            r is Some && r->Some_0 is Ok ==> final(self).inner.iter_after_skip() == skip_to_close::<
                CP,
            >(final(self).inner.iter_remaining(), 0),
    {
        loop
            invariant
                self.wf(),
                self.remaining() == old(self).remaining(),
            decreases self.inner.iter_remaining().len(),
        {
            let ghost before = self.inner.iter_remaining();
            match self.inner.next_step() {
                Some(Position::Entry(item)) => {
                    proof {
                        let rest = classic_trace::<CP>(before.skip(1));
                        assert((seq![
                            Ok::<CP::Item, Error>(item),
                        ] + rest).skip(1) =~= rest);
                    }
                    return Some(Ok(item));
                },
                Some(Position::Error(e)) => {
                    proof {
                        let rest = classic_trace::<CP>(before.skip(1));
                        assert((seq![
                            Err::<CP::Item, Error>(e),
                        ] + rest).skip(1) =~= rest);
                    }
                    return Some(Err(e));
                },
                Some(_) => {},
                None => {
                    return None;
                },
            }
        }
    }

    /// Runs the walk to its end and gives all its entries and errors, in
    /// order.
    pub fn collect(&mut self) -> (r: Vec<Result<CP::Item, Error>>)
        requires
            old(self).wf(),
        ensures
            final(self).wf(),
            r@ == old(self).remaining(),
            final(self).remaining().len() == 0,
    {
        let mut out: Vec<Result<CP::Item, Error>> = Vec::new();
        loop
            invariant
                self.wf(),
                out@ + self.remaining() == old(self).remaining(),
            ensures
                self.wf(),
                out@ == old(self).remaining(),
                self.remaining().len() == 0,
            decreases self.remaining().len(),
        {
            let ghost before = self.remaining();
            let ghost sofar = out@;
            match self.next() {
                Some(step) => {
                    out.push(step);
                    proof {
                        assert(sofar.push(step) + before.skip(1) =~= sofar + before);
                    }
                },
                None => {
                    proof {
                        assert(sofar + before =~= sofar);
                    }
                    break ;
                },
            }
        }
        out
    }

    /// Puts the walk behind the content of the directory at which it
    /// stands.
    pub fn skip_current_dir(&mut self)
        requires
            old(self).wf(),
        ensures
            final(self).wf(),
            final(self).remaining() == old(self).after_skip(),
    {
        self.inner.skip_dir();
    }

    /// Yields only the entries that pass the test `predicate`, and stays
    /// out of the directories that fail it.
    pub fn filter_entry<P: Fn(&CP::Item) -> bool>(
        self,
        predicate: P,
    ) -> (r: ClassicFilterEntry<CP, I, P>)
        ensures
            r.inner == self,
            r.predicate == predicate,
            r.wf() == (self.wf() && predicate_wf(predicate)),
            r.remaining() == classic_trace::<CP>(
                filter_trace::<CP, P>(predicate, self.inner.iter_remaining()),
            ),
            r.after_skip() == classic_trace::<CP>(
                filter_trace::<CP, P>(predicate, self.inner.iter_after_skip()),
            ),
    {
        ClassicFilterEntry { inner: self, predicate }
    }
}

impl<CP: ContentProcessor, I: WalkDirIter<CP>> ClassicWalkDirIter<CP> for ClassicIter<CP, I> {
    open spec fn iter_wf(&self) -> bool {
        self.wf()
    }

    open spec fn iter_remaining(&self) -> Seq<
        Result<CP::Item, Error>,
    > {
        self.remaining()
    }

    open spec fn iter_after_skip(&self) -> Seq<
        Result<CP::Item, Error>,
    > {
        self.after_skip()
    }

    fn next_entry(&mut self) -> (r: Option<
        Result<CP::Item, Error>,
    >) {
        self.next()
    }

    fn skip_dir(&mut self) {
        self.skip_current_dir()
    }
}

/// A walk that yields entries and errors alone, and of the entries only
/// those that pass a test; it stays out of the directories that fail it.
///
/// The errors pass without being shown to the test.
pub struct ClassicFilterEntry<CP, I, P> {
    pub inner: ClassicIter<CP, I>,
    pub predicate: P,
}

impl<CP: ContentProcessor, I: WalkDirIter<CP>, P: Fn(&CP::Item) -> bool> ClassicFilterEntry<
    CP,
    I,
    P,
> {
    /// The walk is in order and the test fit for use.
    pub open spec fn wf(&self) -> bool {
        self.inner.inner.iter_wf() && predicate_wf(self.predicate)
    }

    /// All that the iterator has still to yield, in order.
    pub open spec fn remaining(&self) -> Seq<
        Result<CP::Item, Error>,
    > {
        classic_trace::<CP>(
            filter_trace::<CP, P>(self.predicate, self.inner.inner.iter_remaining()),
        )
    }

    /// All that the iterator would have to yield behind the directory at
    /// which the walk stands.
    pub open spec fn after_skip(&self) -> Seq<
        Result<CP::Item, Error>,
    > {
        classic_trace::<CP>(
            filter_trace::<CP, P>(self.predicate, self.inner.inner.iter_after_skip()),
        )
    }

    /// Advances the walk to the next entry that passes the test, or to the
    /// next error, and yields it; `None` when the walk is over.
    pub fn next(&mut self) -> (r: Option<Result<CP::Item, Error>>)
        requires
            old(self).wf(),
        ensures
            final(self).wf(),
            final(self).predicate == old(self).predicate,
            old(self).remaining().len() == 0 ==> r is None && final(self).remaining().len() == 0,
            old(self).remaining().len() > 0 ==> r == Some(old(self).remaining()[0])
                && final(self).remaining() == old(self).remaining().skip(1),
    {
        loop
            invariant
                self.wf(),
                self.predicate == old(self).predicate,
                self.remaining() == old(self).remaining(),
            decreases self.inner.inner.iter_remaining().len(),
        {
            let ghost before = self.inner.inner.iter_remaining();
            let item = match self.inner.inner.next_step() {
                Some(item) => item,
                None => {
                    return None;
                },
            };
            let ghost rest = self.inner.inner.iter_remaining();
            let ghost f = filter_trace::<CP, P>(self.predicate, rest);
            proof {
                assert((seq![before[0]] + f).skip(1) =~= f);
            }
            match item {
                Position::Entry(dent) => {
                    if (self.predicate)(&dent) {
                        proof {
                            let c = classic_trace::<CP>(f);
                            assert((seq![
                                Ok::<CP::Item, Error>(dent),
                            ] + c).skip(1) =~= c);
                        }
                        return Some(Ok(dent));
                    }
                    if CP::is_dir(&dent) {
                        proof {
                            lemma_skip_to_close_len::<CP>(rest, 0);
                        }
                        self.inner.inner.skip_dir();
                    }
                },
                Position::Error(e) => {
                    proof {
                        let c = classic_trace::<CP>(f);
                        assert((seq![
                            Err::<CP::Item, Error>(e),
                        ] + c).skip(1) =~= c);
                    }
                    return Some(Err(e));
                },
                _ => {},
            }
        }
    }

    /// Runs the walk to its end and gives all that it yields, in order.
    pub fn collect(&mut self) -> (r: Vec<Result<CP::Item, Error>>)
        requires
            old(self).wf(),
        ensures
            final(self).wf(),
            final(self).predicate == old(self).predicate,
            r@ == old(self).remaining(),
            final(self).remaining().len() == 0,
    {
        let mut out: Vec<Result<CP::Item, Error>> = Vec::new();
        loop
            invariant
                self.wf(),
                self.predicate == old(self).predicate,
                out@ + self.remaining() == old(self).remaining(),
            ensures
                self.wf(),
                self.predicate == old(self).predicate,
                out@ == old(self).remaining(),
                self.remaining().len() == 0,
            decreases self.remaining().len(),
        {
            let ghost before = self.remaining();
            let ghost sofar = out@;
            match self.next() {
                Some(step) => {
                    out.push(step);
                    proof {
                        assert(sofar.push(step) + before.skip(1) =~= sofar + before);
                    }
                },
                None => {
                    proof {
                        assert(sofar + before =~= sofar);
                    }
                    break ;
                },
            }
        }
        out
    }

    /// Adds a test: an entry is yielded only if it passes this one too.
    pub fn filter_entry<P2: Fn(&CP::Item) -> bool>(
        self,
        predicate: P2,
    ) -> (r: ClassicFilterEntry<CP, FilterEntry<CP, I, P>, P2>)
        ensures
            r.inner.inner.inner == self.inner.inner,
            r.inner.inner.predicate == self.predicate,
            r.predicate == predicate,
            r.wf() == (self.wf() && predicate_wf(predicate)),
            r.remaining() == classic_trace::<CP>(
                filter_trace::<CP, P2>(
                    predicate,
                    filter_trace::<CP, P>(
                        self.predicate,
                        self.inner.inner.iter_remaining(),
                    ),
                ),
            ),
    {
        ClassicFilterEntry {
            inner: ClassicIter {
                inner: FilterEntry {
                    inner: self.inner.inner,
                    predicate: self.predicate,
                    _cp: PhantomData,
                },
                _cp: PhantomData,
            },
            predicate,
        }
    }

    /// Puts the walk behind the content of the directory at which it
    /// stands.
    pub fn skip_current_dir(&mut self)
        requires
            old(self).wf(),
        ensures
            final(self).wf(),
            final(self).predicate == old(self).predicate,
            final(self).remaining() == old(self).after_skip(),
    {
        self.inner.inner.skip_dir();
    }
}

impl<CP: ContentProcessor, I: WalkDirIter<CP>, P: Fn(&CP::Item) -> bool> ClassicWalkDirIter<
    CP,
> for ClassicFilterEntry<CP, I, P> {
    open spec fn iter_wf(&self) -> bool {
        self.wf()
    }

    open spec fn iter_remaining(&self) -> Seq<
        Result<CP::Item, Error>,
    > {
        self.remaining()
    }

    open spec fn iter_after_skip(&self) -> Seq<
        Result<CP::Item, Error>,
    > {
        self.after_skip()
    }

    fn next_entry(&mut self) -> (r: Option<
        Result<CP::Item, Error>,
    >) {
        self.next()
    }

    fn skip_dir(&mut self) {
        self.skip_current_dir()
    }
}

} // verus!
