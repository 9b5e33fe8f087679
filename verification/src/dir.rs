//! One directory of a walk: its records, the loader that reads them as
//! they are needed, and the state that decides which record comes next.
use vstd::prelude::*;
use crate::classify::{Classifier, Cx};
use crate::cp::ContentProcessor;
use crate::error::{Error, ErrorInner};
use crate::opts::WalkDirOptionsImmut;
use crate::rawdent::{RawDirEntry, ReadDir};
use crate::sort::Sorter;
use crate::storage::StorageExt;
use crate::wd::{ContentFilter, ContentOrder, Depth, Position};

verus! {

/// A raw entry with what the walk has found out about it.
#[derive(Debug, PartialEq, Eq)]
pub struct FlatDirEntry {
    pub raw: RawDirEntry,
    /// The entry is a directory that the walk goes into.
    pub is_dir: bool,
    /// The entry is a link back to the directory with this index on the
    /// path from the root.
    pub loop_link: Option<Depth>,
}

impl Clone for FlatDirEntry {
    fn clone(&self) -> (r: Self)
        ensures
            r == *self,
    {
        FlatDirEntry { raw: self.raw.clone(), is_dir: self.is_dir, loop_link: self.loop_link }
    }
}

/// One entry of a directory as the walk keeps it: the classified entry or
/// the error that stands in its place, and how order and filter treat it.
#[derive(Debug, PartialEq, Eq)]
pub struct DirEntryRecord {
    pub flat: Result<FlatDirEntry, ErrorInner>,
    /// The record is visited in the first of two passes.
    pub first_pass: bool,
    /// The filter keeps the record from being yielded.
    pub hidden: bool,
}

impl DirEntryRecord {
    /// The record that holds `flat` under the options `opts`.
    pub open spec fn spec_from_flat(
        opts: WalkDirOptionsImmut,
        flat: Result<FlatDirEntry, ErrorInner>,
    ) -> DirEntryRecord {
        match flat {
            Ok(f) => DirEntryRecord {
                flat,
                first_pass: match opts.content_order {
                    ContentOrder::Unordered => false,
                    ContentOrder::DirsFirst => f.is_dir,
                    ContentOrder::FilesFirst => !f.is_dir,
                },
                hidden: match opts.content_filter {
                    ContentFilter::NoFilter => false,
                    ContentFilter::DirsOnly => !f.is_dir,
                    ContentFilter::FilesOnly => f.is_dir,
                    ContentFilter::SkipAll => true,
                },
            },
            Err(_) => DirEntryRecord { flat, first_pass: false, hidden: false },
        }
    }

    /// The record that stands for one item read from a directory at
    /// `depth`; `None` where classification passes the entry over.
    pub open spec fn spec_new<E: StorageExt>(
        fs: &E,
        cx: Cx,
        depth: Depth,
        r_rawdent: Result<RawDirEntry, ErrorInner>,
    ) -> Option<DirEntryRecord> {
        match r_rawdent {
            Ok(raw) => match crate::classify::spec_classify(fs, cx, depth, raw) {
                Some(flat) => Some(Self::spec_from_flat(cx.opts, flat)),
                None => None,
            },
            Err(e) => Some(Self::spec_from_flat(cx.opts, Err(e))),
        }
    }

    /// The records that stand for the items `raws` of a directory at
    /// `depth`, in their order.
    pub open spec fn records_of<E: StorageExt>(
        fs: &E,
        cx: Cx,
        depth: Depth,
        raws: Seq<Result<RawDirEntry, ErrorInner>>,
    ) -> Seq<DirEntryRecord>
        decreases raws.len(),
    {
        if raws.len() == 0 {
            seq![]
        } else {
            let rest = Self::records_of(fs, cx, depth, raws.skip(1));
            match Self::spec_new(fs, cx, depth, raws[0]) {
                Some(rec) => seq![rec] + rest,
                None => rest,
            }
        }
    }

    /// A record may be visited unless the filter hides it; a hidden
    /// directory is visited all the same, for the sake of its content.
    pub open spec fn spec_can_be_yielded(&self) -> bool {
        !self.hidden || (self.flat matches Ok(f) && f.is_dir)
    }

    /// Makes the record of one item read from a directory: classifies the
    /// entry and works out how order and filter treat it.
    pub fn new<E: StorageExt>(
        r_rawdent: Result<RawDirEntry, ErrorInner>,
        classifier: &Classifier,
        depth: Depth,
        fs: &E,
    ) -> (r: Option<Self>)
        ensures
            r == Self::spec_new(fs, classifier.cx(depth), depth, r_rawdent),
    {
        let r_flat = match r_rawdent {
            Ok(raw) => match classifier.process_rawdent(raw, depth, fs) {
                Some(flat) => flat,
                None => {
                    return None;
                },
            },
            Err(e) => Err(e),
        };
        let rec = match r_flat {
            Ok(flat) => {
                let first_pass = match classifier.opts.content_order {
                    ContentOrder::Unordered => false,
                    ContentOrder::DirsFirst => flat.is_dir,
                    ContentOrder::FilesFirst => !flat.is_dir,
                };
                let hidden = match classifier.opts.content_filter {
                    ContentFilter::NoFilter => false,
                    ContentFilter::DirsOnly => !flat.is_dir,
                    ContentFilter::FilesOnly => flat.is_dir,
                    ContentFilter::SkipAll => true,
                };
                DirEntryRecord { flat: Ok(flat), first_pass, hidden }
            },
            Err(err) => DirEntryRecord { flat: Err(err), first_pass: false, hidden: false },
        };
        Some(rec)
    }

    /// May the record be visited?
    pub fn can_be_yielded(&self) -> (r: bool)
        ensures
            r == self.spec_can_be_yielded(),
    {
        if !self.hidden {
            return true;
        }
        match &self.flat {
            Ok(flat) => flat.is_dir,
            Err(_) => false,
        }
    }
}

/// The passes in which the records of a directory are visited.
#[derive(Clone, Copy, Debug, PartialEq, Eq, Structural)]
pub enum DirPass {
    /// The only pass: every record.
    Entire,
    /// The first of two: the records marked `first_pass`.
    First,
    /// The second of two: the others.
    Second,
}

/// The pass in which a directory starts.
pub open spec fn spec_initial_pass(opts: WalkDirOptionsImmut) -> DirPass {
    if opts.content_order == ContentOrder::Unordered {
        DirPass::Entire
    } else {
        DirPass::First
    }
}

/// The pass in which a directory starts.
pub fn get_initial_pass(opts: &WalkDirOptionsImmut) -> (r: DirPass)
    ensures
        r == spec_initial_pass(*opts),
{
    match opts.content_order {
        ContentOrder::Unordered => DirPass::Entire,
        _ => DirPass::First,
    }
}

/// Does `pass` stop at `rec`?
pub open spec fn accepts(pass: DirPass, rec: DirEntryRecord) -> bool {
    &&& match pass {
        DirPass::Entire => true,
        DirPass::First => rec.first_pass,
        DirPass::Second => !rec.first_pass,
    }
    &&& rec.spec_can_be_yielded()
}

/// The records of `s` that `pass` stops at, in their order.
pub open spec fn select(s: Seq<DirEntryRecord>, pass: DirPass) -> Seq<DirEntryRecord>
    decreases s.len(),
{
    if s.len() == 0 {
        seq![]
    } else if accepts(pass, s[0]) {
        seq![s[0]] + select(s.skip(1), pass)
    } else {
        select(s.skip(1), pass)
    }
}

/// The order in which the records `s` of a directory are visited, from
/// the start of `pass`.
pub open spec fn arrange(s: Seq<DirEntryRecord>, pass: DirPass) -> Seq<DirEntryRecord> {
    if pass == DirPass::First {
        select(s, DirPass::First) + select(s, DirPass::Second)
    } else {
        select(s, pass)
    }
}

/// Selecting from the part of `s` behind `i` looks at `s[i]` first.
pub proof fn lemma_select_skip(s: Seq<DirEntryRecord>, i: int, pass: DirPass)
    requires
        0 <= i < s.len(),
    ensures
        select(s.skip(i), pass) == if accepts(pass, s[i]) {
            seq![s[i]] + select(s.skip(i + 1), pass)
        } else {
            select(s.skip(i + 1), pass)
        },
{
    assert(s.skip(i).skip(1) =~= s.skip(i + 1));
}

/// Each record that a pass selects is a record of the directory, and one
/// that the pass stops at.
pub proof fn lemma_select_elements(s: Seq<DirEntryRecord>, pass: DirPass, k: int)
    requires
        0 <= k < select(s, pass).len(),
    ensures
        s.contains(select(s, pass)[k]),
        accepts(pass, select(s, pass)[k]),
    decreases s.len(),
{
    if s.len() > 0 {
        let t = s.skip(1);
        if accepts(pass, s[0]) {
            if k == 0 {
                assert(s[0] == select(s, pass)[k]);
            } else {
                lemma_select_elements(t, pass, k - 1);
                let r = select(t, pass)[k - 1];
                let m = choose|m: int| 0 <= m < t.len() && t[m] == r;
                assert(s[m + 1] == r);
            }
        } else {
            lemma_select_elements(t, pass, k);
            let r = select(t, pass)[k];
            let m = choose|m: int| 0 <= m < t.len() && t[m] == r;
            assert(s[m + 1] == r);
        }
    }
}

/// A pass over a sorted directory stops at its records in sorted order.
pub proof fn lemma_select_sorted<S: Sorter>(sorter: &S, s: Seq<DirEntryRecord>, pass: DirPass)
    requires
        crate::sort::is_sorted(sorter, s),
    ensures
        crate::sort::is_sorted(sorter, select(s, pass)),
    decreases s.len(),
{
    if s.len() > 0 {
        let t = s.skip(1);
        assert forall|i: int, j: int| 0 <= i < j < t.len() implies crate::sort::record_precedes(
            sorter,
            &#[trigger] t[i],
            &#[trigger] t[j],
        ) by {
            assert(crate::sort::record_precedes(sorter, &s[i + 1], &s[j + 1]));
        }
        lemma_select_sorted(sorter, t, pass);
        let u = select(t, pass);
        let r = select(s, pass);
        if accepts(pass, s[0]) {
            assert forall|i: int, j: int| 0 <= i < j < r.len() implies crate::sort::record_precedes(
                sorter,
                &#[trigger] r[i],
                &#[trigger] r[j],
            ) by {
                if i == 0 {
                    lemma_select_elements(t, pass, j - 1);
                    let m = choose|m: int| 0 <= m < t.len() && t[m] == u[j - 1];
                    assert(crate::sort::record_precedes(sorter, &s[0], &s[m + 1]));
                } else {
                    assert(crate::sort::record_precedes(sorter, &u[i - 1], &u[j - 1]));
                }
            }
        }
    }
}

/// The record holds an entry that is a directory to walk into.
pub open spec fn is_dir_record(rec: DirEntryRecord) -> bool {
    rec.flat is Ok && rec.flat->Ok_0.is_dir
}

/// The record holds an entry that is no directory.
pub open spec fn is_file_record(rec: DirEntryRecord) -> bool {
    rec.flat is Ok && !rec.flat->Ok_0.is_dir
}

/// Each record made of an item of a directory has the marks that the
/// options give to what it holds.
pub proof fn lemma_records_of_marks<E: StorageExt>(
    fs: &E,
    cx: Cx,
    depth: Depth,
    raws: Seq<Result<RawDirEntry, ErrorInner>>,
    k: int,
)
    requires
        0 <= k < DirEntryRecord::records_of(fs, cx, depth, raws).len(),
    ensures
        DirEntryRecord::records_of(fs, cx, depth, raws)[k] == DirEntryRecord::spec_from_flat(
            cx.opts,
            DirEntryRecord::records_of(fs, cx, depth, raws)[k].flat,
        ),
    decreases raws.len(),
{
    if raws.len() > 0 {
        let rest = raws.skip(1);
        match DirEntryRecord::spec_new(fs, cx, depth, raws[0]) {
            Some(rec) => {
                if k > 0 {
                    lemma_records_of_marks(fs, cx, depth, rest, k - 1);
                }
            },
            None => {
                lemma_records_of_marks(fs, cx, depth, rest, k);
            },
        }
    }
}

/// Each record in the order of visiting has the marks that the options
/// give to what it holds, and is one that may be visited.
pub proof fn lemma_visit_order_marks<E: StorageExt, S: Sorter>(
    fs: &E,
    cx: Cx,
    depth: Depth,
    sorter: &Option<S>,
    raws: Seq<Result<RawDirEntry, ErrorInner>>,
    k: int,
)
    requires
        0 <= k < spec_visit_order(fs, cx, depth, sorter, raws).len(),
    ensures
        spec_visit_order(fs, cx, depth, sorter, raws)[k] == DirEntryRecord::spec_from_flat(
            cx.opts,
            spec_visit_order(fs, cx, depth, sorter, raws)[k].flat,
        ),
        spec_visit_order(fs, cx, depth, sorter, raws)[k].spec_can_be_yielded(),
        cx.opts.content_order != ContentOrder::Unordered ==> (spec_visit_order(
            fs,
            cx,
            depth,
            sorter,
            raws,
        )[k].first_pass <==> k < select(
            match sorter {
                Some(s) => crate::sort::sort_records(
                    s,
                    DirEntryRecord::records_of(fs, cx, depth, raws),
                ),
                None => DirEntryRecord::records_of(fs, cx, depth, raws),
            },
            DirPass::First,
        ).len()),
{
    let recs = DirEntryRecord::records_of(fs, cx, depth, raws);
    let sorted = match sorter {
        Some(s) => crate::sort::sort_records(s, recs),
        None => recs,
    };
    let pass = spec_initial_pass(cx.opts);
    let v = spec_visit_order(fs, cx, depth, sorter, raws);
    let first = select(sorted, DirPass::First);
    let r = v[k];
    let which = if pass == DirPass::First {
        if k < first.len() {
            DirPass::First
        } else {
            DirPass::Second
        }
    } else {
        pass
    };
    let at = if pass == DirPass::First && k >= first.len() {
        k - first.len()
    } else {
        k
    };
    assert(r == select(sorted, which)[at]);
    lemma_select_elements(sorted, which, at);
    let m = choose|m: int| 0 <= m < sorted.len() && sorted[m] == r;
    match sorter {
        Some(s) => {
            crate::sort::lemma_sort_records_elements(s, recs, m);
        },
        None => {},
    }
    let n = choose|n: int| 0 <= n < recs.len() && recs[n] == r;
    lemma_records_of_marks(fs, cx, depth, raws, n);
}

/// If the record holds a link that leads back to a directory on the way
/// down, that directory is one of the first `n`.
pub open spec fn loop_within(rec: DirEntryRecord, n: int) -> bool {
    rec.flat matches Ok(flat) ==> (flat.loop_link matches Some(i) ==> i < n)
}

/// Each record made of an item of a directory marks as loops only links
/// that lead back to a directory of the chain.
pub proof fn lemma_records_of_loops<E: StorageExt>(
    fs: &E,
    cx: Cx,
    depth: Depth,
    raws: Seq<Result<RawDirEntry, ErrorInner>>,
    k: int,
)
    requires
        0 <= k < DirEntryRecord::records_of(fs, cx, depth, raws).len(),
    ensures
        loop_within(DirEntryRecord::records_of(fs, cx, depth, raws)[k], cx.chain.len() as int),
    decreases raws.len(),
{
    if raws.len() > 0 {
        let rest = raws.skip(1);
        match raws[0] {
            Ok(raw) => {
                crate::classify::lemma_classify_loop_link(fs, cx, depth, raw);
            },
            Err(_) => {},
        }
        match DirEntryRecord::spec_new(fs, cx, depth, raws[0]) {
            Some(rec) => {
                if k > 0 {
                    lemma_records_of_loops(fs, cx, depth, rest, k - 1);
                }
            },
            None => {
                lemma_records_of_loops(fs, cx, depth, rest, k);
            },
        }
    }
}

/// Each record in the order of visiting marks as loops only links that
/// lead back to a directory of the chain.
pub proof fn lemma_visit_order_loops<E: StorageExt, S: Sorter>(
    fs: &E,
    cx: Cx,
    depth: Depth,
    sorter: &Option<S>,
    raws: Seq<Result<RawDirEntry, ErrorInner>>,
    k: int,
)
    requires
        0 <= k < spec_visit_order(fs, cx, depth, sorter, raws).len(),
    ensures
        loop_within(spec_visit_order(fs, cx, depth, sorter, raws)[k], cx.chain.len() as int),
{
    let recs = DirEntryRecord::records_of(fs, cx, depth, raws);
    let sorted = match sorter {
        Some(s) => crate::sort::sort_records(s, recs),
        None => recs,
    };
    let pass = spec_initial_pass(cx.opts);
    let v = spec_visit_order(fs, cx, depth, sorter, raws);
    let first = select(sorted, DirPass::First);
    let r = v[k];
    let which = if pass == DirPass::First {
        if k < first.len() {
            DirPass::First
        } else {
            DirPass::Second
        }
    } else {
        pass
    };
    let at = if pass == DirPass::First && k >= first.len() {
        k - first.len()
    } else {
        k
    };
    assert(r == select(sorted, which)[at]);
    lemma_select_elements(sorted, which, at);
    let m = choose|m: int| 0 <= m < sorted.len() && sorted[m] == r;
    match sorter {
        Some(s) => {
            crate::sort::lemma_sort_records_elements(s, recs, m);
        },
        None => {},
    }
    let n = choose|n: int| 0 <= n < recs.len() && recs[n] == r;
    lemma_records_of_loops(fs, cx, depth, raws, n);
}

/// With directories first, a directory is visited before everything of
/// its parent that is no directory, whatever the order in which the storage
/// lists them: in the order of visiting nothing but directories stands
/// before a directory.
pub proof fn lemma_dirs_first<E: StorageExt, S: Sorter>(
    fs: &E,
    cx: Cx,
    depth: Depth,
    sorter: &Option<S>,
    raws: Seq<Result<RawDirEntry, ErrorInner>>,
    i: int,
    j: int,
)
    requires
        cx.opts.content_order == ContentOrder::DirsFirst,
        0 <= i < j < spec_visit_order(fs, cx, depth, sorter, raws).len(),
        is_dir_record(spec_visit_order(fs, cx, depth, sorter, raws)[j]),
    ensures
        is_dir_record(spec_visit_order(fs, cx, depth, sorter, raws)[i]),
{
    lemma_visit_order_marks(fs, cx, depth, sorter, raws, i);
    lemma_visit_order_marks(fs, cx, depth, sorter, raws, j);
}

/// With files first, an entry that is no directory is visited before all
/// directories of its parent: in the order of visiting no directory stands
/// before an entry that is none.
pub proof fn lemma_files_first<E: StorageExt, S: Sorter>(
    fs: &E,
    cx: Cx,
    depth: Depth,
    sorter: &Option<S>,
    raws: Seq<Result<RawDirEntry, ErrorInner>>,
    i: int,
    j: int,
)
    requires
        cx.opts.content_order == ContentOrder::FilesFirst,
        0 <= i < j < spec_visit_order(fs, cx, depth, sorter, raws).len(),
        is_file_record(spec_visit_order(fs, cx, depth, sorter, raws)[j]),
    ensures
        is_file_record(spec_visit_order(fs, cx, depth, sorter, raws)[i]),
{
    lemma_visit_order_marks(fs, cx, depth, sorter, raws, i);
    lemma_visit_order_marks(fs, cx, depth, sorter, raws, j);
}

/// With a sorter that orders all entries, the entries of a directory are
/// visited in the order of the sorter: of two records of one pass the one
/// that is visited first may stand before the other. Without an order of
/// content there is one pass, and the whole directory is visited in sorted
/// order.
pub proof fn lemma_visit_order_sorted<E: StorageExt, S: Sorter>(
    fs: &E,
    cx: Cx,
    depth: Depth,
    sorter: &S,
    raws: Seq<Result<RawDirEntry, ErrorInner>>,
    i: int,
    j: int,
)
    requires
        crate::sort::is_total_preorder(sorter),
        0 <= i < j < spec_visit_order(fs, cx, depth, &Some(*sorter), raws).len(),
        spec_visit_order(fs, cx, depth, &Some(*sorter), raws)[i].first_pass == spec_visit_order(
            fs,
            cx,
            depth,
            &Some(*sorter),
            raws,
        )[j].first_pass,
    ensures
        crate::sort::record_precedes(
            sorter,
            &spec_visit_order(fs, cx, depth, &Some(*sorter), raws)[i],
            &spec_visit_order(fs, cx, depth, &Some(*sorter), raws)[j],
        ),
{
    let recs = DirEntryRecord::records_of(fs, cx, depth, raws);
    let sorted = crate::sort::sort_records(sorter, recs);
    crate::sort::lemma_sort_records_sorted(sorter, recs);
    let pass = spec_initial_pass(cx.opts);
    let v = spec_visit_order(fs, cx, depth, &Some(*sorter), raws);
    if pass == DirPass::First {
        let first = select(sorted, DirPass::First);
        let second = select(sorted, DirPass::Second);
        lemma_select_sorted(sorter, sorted, DirPass::First);
        lemma_select_sorted(sorter, sorted, DirPass::Second);
        lemma_visit_order_marks(fs, cx, depth, &Some(*sorter), raws, i);
        lemma_visit_order_marks(fs, cx, depth, &Some(*sorter), raws, j);
        if j < first.len() {
            assert(crate::sort::record_precedes(sorter, &first[i], &first[j]));
        } else {
            assert(crate::sort::record_precedes(
                sorter,
                &second[i - first.len()],
                &second[j - first.len()],
            ));
        }
    } else {
        lemma_select_sorted(sorter, sorted, pass);
        assert(crate::sort::record_precedes(sorter, &v[i], &v[j]));
    }
}

/// The records of a directory: those already read, and where the next
/// ones come from.
///
/// A record, once read, keeps its index. Reading never disturbs the
/// cursor, so the stream can be drained at any time (to free its handle, or
/// to sort) without the walk noticing.
pub struct DirContent<E: StorageExt> {
    /// What has not been read yet.
    pub rd: ReadDir<E>,
    /// What has been read, in order.
    pub content: Vec<DirEntryRecord>,
    /// The index of the current record; `None` before the first.
    pub current_pos: Option<usize>,
}

impl<E: StorageExt> DirContent<E> {
    /// The cursor, if it is set, points at a record that has been read.
    pub open spec fn wf(&self) -> bool {
        self.current_pos matches Some(p) ==> p < self.content@.len()
    }

    /// The index that the cursor moves to next.
    pub open spec fn next_index(&self) -> int {
        match self.current_pos {
            Some(p) => p + 1,
            None => 0,
        }
    }

    /// All records of the directory: those read, then those that reading
    /// the rest will give.
    pub open spec fn all_records(&self, fs: &E, cx: Cx, depth: Depth) -> Seq<DirEntryRecord> {
        self.content@ + DirEntryRecord::records_of(fs, cx, depth, self.rd.pending(fs))
    }

    /// The "directory" that holds the root of a walk: the one entry made
    /// of `path`. Fails, naming the path, if the storage knows nothing of it.
    pub fn new_once(path: &String, fs: &E) -> (r: Result<Self, ErrorInner>)
        ensures
            match (r, RawDirEntry::spec_from_path(fs, *path)) {
                (Ok(c), Ok(raw)) => c.rd == (ReadDir::<E>::Once { item: Some(raw) })
                    && c.content@.len() == 0 && c.current_pos is None,
                (Err(e), Err(e2)) => e == e2,
                _ => false,
            },
    {
        match ReadDir::new_once(path, fs) {
            Ok(rd) => Ok(DirContent { rd, content: Vec::new(), current_pos: None }),
            Err(e) => Err(e),
        }
    }

    /// Opens the directory behind `parent`. Where that fails the loader
    /// holds the error in place of the content: it hands it out once, as its
    /// only record.
    pub fn new(parent: &RawDirEntry, fs: &E) -> (r: Self)
        ensures
            r.content@.len() == 0,
            r.current_pos is None,
            match parent.spec_read_dir(fs) {
                Ok(raws) => r.rd is Opened && r.rd.pending(fs) == raws,
                Err(e) => r.rd == ReadDir::<E>::Error(Some(e)),
            },
    {
        let rd = match parent.read_dir(fs) {
            Ok(rd) => rd,
            Err(e) => ReadDir::Error(Some(e)),
        };
        DirContent { rd, content: Vec::new(), current_pos: None }
    }

    /// The error of opening the directory, if it failed and the error was
    /// not handed out yet. Takes the error out of the loader.
    pub fn take_open_error(&mut self) -> (r: Option<ErrorInner>)
        ensures
            match old(self).rd {
                ReadDir::Error(Some(e)) => r == Some(e) && final(self).rd == ReadDir::<E>::Error(
                    None,
                ),
                _ => r is None && final(self).rd == old(self).rd,
            },
            final(self).content == old(self).content,
            final(self).current_pos == old(self).current_pos,
    {
        match &mut self.rd {
            ReadDir::Error(err) => err.take(),
            _ => None,
        }
    }

    /// Reads all that is left into the buffer and lets go of the stream.
    /// The cursor stays where it is.
    pub fn load_all(&mut self, classifier: &Classifier, depth: Depth, fs: &E)
        requires
            old(self).wf(),
        ensures
            final(self).wf(),
            final(self).content@ == old(self).all_records(fs, classifier.cx(depth), depth),
            final(self).all_records(fs, classifier.cx(depth), depth) == old(self).all_records(
                fs,
                classifier.cx(depth),
                depth,
            ),
            final(self).current_pos == old(self).current_pos,
            final(self).rd.pending(fs).len() == 0,
            !(final(self).rd is Opened),
    {
        let ghost cx = classifier.cx(depth);
        let ghost all = self.all_records(fs, cx, depth);
        loop
            invariant
                self.wf(),
                cx == classifier.cx(depth),
                self.all_records(fs, cx, depth) == all,
                self.current_pos == old(self).current_pos,
            ensures
                self.wf(),
                self.content@ == all,
                self.current_pos == old(self).current_pos,
            decreases self.rd.pending(fs).len(),
        {
            let ghost pending = self.rd.pending(fs);
            let ghost before = self.content@;
            match self.rd.next(fs) {
                Some(r_raw) => {
                    match DirEntryRecord::new(r_raw, classifier, depth, fs) {
                        Some(rec) => {
                            self.content.push(rec);
                            proof {
                                assert(before.push(rec) + DirEntryRecord::records_of(
                                    fs,
                                    cx,
                                    depth,
                                    pending.skip(1),
                                ) =~= before + DirEntryRecord::records_of(fs, cx, depth, pending));
                            }
                        },
                        None => {},
                    }
                },
                None => {
                    proof {
                        assert(before + DirEntryRecord::records_of(fs, cx, depth, pending)
                            =~= before);
                    }
                    break ;
                },
            }
        }
        self.rd.close();
        proof {
            assert(self.content@ + DirEntryRecord::records_of(fs, cx, depth, self.rd.pending(fs))
                =~= self.content@);
        }
    }

    /// Moves the cursor to the next record, reading it if it was not read
    /// yet, and tells how order and filter treat it: `first_pass` and
    /// `can_be_yielded`. `None` at the end: the cursor stays, and the
    /// directory stays exhausted from then on.
    pub fn get_next_rec(&mut self, classifier: &Classifier, depth: Depth, fs: &E) -> (r: Option<
        (bool, bool),
    >)
        requires
            old(self).wf(),
        ensures
            final(self).wf(),
            final(self).all_records(fs, classifier.cx(depth), depth) == old(self).all_records(
                fs,
                classifier.cx(depth),
                depth,
            ),
            final(self).content@.len() >= old(self).content@.len(),
            final(self).rd is Opened ==> old(self).rd is Opened,
            old(self).next_index() < old(self).content@.len() ==> final(self).rd == old(self).rd
                && final(self).content == old(self).content,
            old(self).next_index() < old(self).all_records(fs, classifier.cx(depth), depth).len()
                ==> {
                let rec = old(self).all_records(fs, classifier.cx(depth), depth)[old(self).next_index()];
                &&& r == Some((rec.first_pass, rec.spec_can_be_yielded()))
                &&& final(self).current_pos is Some
                &&& final(self).next_index() == old(self).next_index() + 1
                &&& final(self).content@.len() == vstd::math::max(
                    old(self).content@.len() as int,
                    old(self).next_index() + 1,
                )
            },
            old(self).next_index() >= old(self).all_records(fs, classifier.cx(depth), depth).len()
                ==> {
                &&& r is None
                &&& final(self).current_pos == old(self).current_pos
                &&& final(self).content@ == old(self).content@
                &&& final(self).rd.pending(fs).len() == 0
                &&& !(final(self).rd is Opened)
            },
    {
        let ghost cx = classifier.cx(depth);
        let ghost all = self.all_records(fs, cx, depth);
        let len = self.content.len();
        let next_pos: usize = match self.current_pos {
            Some(pos) => pos + 1,
            None => 0,
        };
        if next_pos < len {
            self.current_pos = Some(next_pos);
            let rec = &self.content[next_pos];
            return Some((rec.first_pass, rec.can_be_yielded()));
        }
        loop
            invariant
                self.wf(),
                cx == classifier.cx(depth),
                self.all_records(fs, cx, depth) == all,
                all == old(self).all_records(fs, cx, depth),
                self.rd is Opened ==> old(self).rd is Opened,
                self.content@ == old(self).content@,
                self.current_pos == old(self).current_pos,
                next_pos == self.content@.len(),
                next_pos == old(self).next_index(),
            decreases self.rd.pending(fs).len(),
        {
            let ghost pending = self.rd.pending(fs);
            let ghost before = self.content@;
            match self.rd.next(fs) {
                Some(r_raw) => {
                    match DirEntryRecord::new(r_raw, classifier, depth, fs) {
                        Some(rec) => {
                            let flags = (rec.first_pass, rec.can_be_yielded());
                            self.content.push(rec);
                            self.current_pos = Some(next_pos);
                            proof {
                                assert(before.push(rec) + DirEntryRecord::records_of(
                                    fs,
                                    cx,
                                    depth,
                                    pending.skip(1),
                                ) =~= before + DirEntryRecord::records_of(fs, cx, depth, pending));
                            }
                            return Some(flags);
                        },
                        None => {},
                    }
                },
                None => {
                    proof {
                        assert(before + DirEntryRecord::records_of(fs, cx, depth, pending)
                            =~= before);
                    }
                    self.rd.close();
                    proof {
                        assert(self.content@ + DirEntryRecord::records_of(
                            fs,
                            cx,
                            depth,
                            self.rd.pending(fs),
                        ) =~= self.content@);
                    }
                    return None;
                },
            }
        }
    }

    /// Puts the cursor back before the first record. Nothing that was read
    /// is forgotten.
    pub fn rewind(&mut self)
        ensures
            final(self).current_pos is None,
            final(self).content == old(self).content,
            final(self).rd == old(self).rd,
            final(self).wf(),
    {
        self.current_pos = None;
    }

    /// The record at the cursor: the entry, or the error that stands in its
    /// place.
    pub fn get_current_rec(&self, depth: Depth) -> (r: Result<
        FlatDirEntryRef<'_>,
        ErrorInnerRef<'_>,
    >)
        requires
            self.wf(),
            self.current_pos is Some,
        ensures
            match r {
                Ok(f) => self.content@[self.current_pos->0 as int].flat == Ok::<
                    FlatDirEntry,
                    ErrorInner,
                >(*f.flat) && f.depth == depth
                    && f.hidden == self.content@[self.current_pos->0 as int].hidden,
                Err(e) => self.content@[self.current_pos->0 as int].flat == Err::<
                    FlatDirEntry,
                    ErrorInner,
                >(*e.err) && e.depth == depth,
            },
    {
        let pos = match self.current_pos {
            Some(p) => p,
            None => 0,
        };
        let rec = &self.content[pos];
        match &rec.flat {
            Ok(flat) => Ok(FlatDirEntryRef::new(flat, depth, rec.hidden)),
            Err(err) => Err(ErrorInnerRef::new(err, depth)),
        }
    }

    /// Sorts what has been read and puts the cursor before the first
    /// record.
    pub fn sort_content_and_rewind<S: Sorter>(&mut self, sorter: &S)
        ensures
            final(self).content@ == crate::sort::sort_records(sorter, old(self).content@),
            final(self).current_pos is None,
            final(self).rd == old(self).rd,
            final(self).wf(),
    {
        crate::sort::sort_content(&mut self.content, sorter);
        self.current_pos = None;
    }

    /// Reads all that is left, sorts the whole directory and puts the
    /// cursor before the first record.
    pub fn load_all_and_sort<S: Sorter>(
        &mut self,
        classifier: &Classifier,
        depth: Depth,
        sorter: &S,
        fs: &E,
    )
        requires
            old(self).wf(),
        ensures
            final(self).wf(),
            final(self).content@ == crate::sort::sort_records(
                sorter,
                old(self).all_records(fs, classifier.cx(depth), depth),
            ),
            final(self).all_records(fs, classifier.cx(depth), depth) == final(self).content@,
            final(self).current_pos is None,
            final(self).rd.pending(fs).len() == 0,
            !(final(self).rd is Opened),
    {
        self.load_all(classifier, depth, fs);
        self.sort_content_and_rewind(sorter);
        proof {
            assert(self.content@ + DirEntryRecord::records_of(
                fs,
                classifier.cx(depth),
                depth,
                self.rd.pending(fs),
            ) =~= self.content@);
        }
    }

    /// The entries that have been read, without the errors, in order.
    pub fn iter_content_flats(&self) -> (r: Vec<&FlatDirEntry>)
        ensures
            r@.len() == flats_of(self.content@).len(),
            forall|i: int| 0 <= i < r@.len() ==> *(#[trigger] r@[i]) == flats_of(self.content@)[i],
    {
        let mut out: Vec<&FlatDirEntry> = Vec::new();
        let mut i: usize = 0;
        while i < self.content.len()
            invariant
                i <= self.content@.len(),
                out@.len() == flats_of(self.content@.take(i as int)).len(),
                forall|k: int|
                    0 <= k < out@.len() ==> *(#[trigger] out@[k]) == flats_of(
                        self.content@.take(i as int),
                    )[k],
            decreases self.content@.len() - i,
        {
            proof {
                lemma_flats_of_push(self.content@.take(i as int), self.content@[i as int]);
                assert(self.content@.take(i as int).push(self.content@[i as int])
                    =~= self.content@.take(i + 1));
            }
            match &self.content[i].flat {
                Ok(flat) => {
                    out.push(flat);
                },
                Err(_) => {},
            }
            i = i + 1;
        }
        proof {
            assert(self.content@.take(i as int) =~= self.content@);
        }
        out
    }
}

/// The entries among the records `s`, without the errors, in order.
pub open spec fn flats_of(s: Seq<DirEntryRecord>) -> Seq<FlatDirEntry>
    decreases s.len(),
{
    if s.len() == 0 {
        seq![]
    } else {
        match s.last().flat {
            Ok(f) => flats_of(s.drop_last()).push(f),
            Err(_) => flats_of(s.drop_last()),
        }
    }
}

/// The entries among `s` followed by `r` are those among `s`, followed by
/// the entry of `r` if it has one.
pub proof fn lemma_flats_of_push(s: Seq<DirEntryRecord>, r: DirEntryRecord)
    ensures
        flats_of(s.push(r)) == match r.flat {
            Ok(f) => flats_of(s).push(f),
            Err(_) => flats_of(s),
        },
{
    assert(s.push(r).drop_last() =~= s);
}

/// The view of a record that holds an entry, with the depth of its
/// directory.
pub struct FlatDirEntryRef<'r> {
    pub flat: &'r FlatDirEntry,
    pub depth: Depth,
    /// The filter keeps the entry from being yielded.
    pub hidden: bool,
}

impl<'r> FlatDirEntryRef<'r> {
    /// Makes the view.
    pub fn new(flat: &'r FlatDirEntry, depth: Depth, hidden: bool) -> (r: Self)
        ensures
            r == (FlatDirEntryRef { flat, depth, hidden }),
    {
        FlatDirEntryRef { flat, depth, hidden }
    }

    /// Makes the caller's item of the entry; `None` if the processor
    /// suppresses it.
    pub fn make_item<CP: ContentProcessor>(&self, content_processor: &CP) -> (r: Option<CP::Item>)
        ensures
            r == content_processor.spec_process(self.flat, self.depth),
    {
        content_processor.process_direntry(self.flat, self.depth)
    }

    /// The entry.
    pub fn as_flat(&self) -> (r: &FlatDirEntry)
        ensures
            *r == *self.flat,
    {
        self.flat
    }

    /// Is the entry a directory that the walk goes into?
    pub fn is_dir(&self) -> (r: bool)
        ensures
            r == self.flat.is_dir,
    {
        self.flat.is_dir
    }

    /// Does the filter keep the entry from being yielded?
    pub fn hidden(&self) -> (r: bool)
        ensures
            r == self.hidden,
    {
        self.hidden
    }

    /// The index, on the path from the root, of the directory that this
    /// link leads back to.
    pub fn loop_link(&self) -> (r: Option<Depth>)
        ensures
            r == self.flat.loop_link,
    {
        self.flat.loop_link
    }

    /// The path of the entry.
    pub fn path(&self) -> (r: &String)
        ensures
            *r == self.flat.raw.path,
    {
        self.flat.raw.path()
    }
}

/// The view of a record that holds an error, with the depth of its
/// directory.
pub struct ErrorInnerRef<'r> {
    pub err: &'r ErrorInner,
    pub depth: Depth,
}

impl<'r> ErrorInnerRef<'r> {
    /// Makes the view.
    pub fn new(err: &'r ErrorInner, depth: Depth) -> (r: Self)
        ensures
            r == (ErrorInnerRef { err, depth }),
    {
        ErrorInnerRef { err, depth }
    }

    /// Gives up the view for the error it shows, at the depth of its
    /// directory.
    pub fn into_error(self) -> (r: Error)
        ensures
            r == (Error { depth: self.depth, inner: *self.err }),
    {
        Error::from_inner(self.err.clone(), self.depth)
    }
}

/// Where a directory state stands.
#[derive(Clone, Copy, Debug, PartialEq, Eq, Structural)]
pub enum DirPosition {
    /// Before the first record.
    BeforeContent,
    /// At a record.
    Entry,
    /// Behind the last record.
    AfterContent,
}

/// The order in which a walk visits the records of a directory that
/// lists `raws`: classified, sorted if there is a sorter, and arranged in
/// passes.
pub open spec fn spec_visit_order<E: StorageExt, S: Sorter>(
    fs: &E,
    cx: Cx,
    depth: Depth,
    sorter: &Option<S>,
    raws: Seq<Result<RawDirEntry, ErrorInner>>,
) -> Seq<DirEntryRecord> {
    let recs = DirEntryRecord::records_of(fs, cx, depth, raws);
    let recs = match sorter {
        Some(s) => crate::sort::sort_records(s, recs),
        None => recs,
    };
    arrange(recs, spec_initial_pass(cx.opts))
}

/// The items that `clone_all_content` makes of the records `recs`.
pub open spec fn spec_clone_all<CP: ContentProcessor>(
    cp: &CP,
    depth: Depth,
    filter: ContentFilter,
    recs: Seq<DirEntryRecord>,
) -> Seq<CP::Item>
    decreases recs.len(),
{
    if recs.len() == 0 {
        seq![]
    } else {
        let front = spec_clone_all(cp, depth, filter, recs.drop_last());
        match recs.last().flat {
            Ok(flat) => if filter_passes(filter, flat.is_dir) {
                match cp.spec_process(&flat, depth) {
                    Some(item) => front.push(item),
                    None => front,
                }
            } else {
                front
            },
            Err(_) => front,
        }
    }
}

/// Does `filter` let an entry through?
pub open spec fn filter_passes(filter: ContentFilter, is_dir: bool) -> bool {
    match filter {
        ContentFilter::NoFilter => true,
        ContentFilter::DirsOnly => is_dir,
        ContentFilter::FilesOnly => !is_dir,
        ContentFilter::SkipAll => false,
    }
}

/// One directory of a walk: its content, its depth, and where among its
/// records the walk stands.
///
/// The state moves from before the content over the records that order
/// and filter let through, one at a time, to behind the content, where it
/// stays. With an order it goes over the directory twice: first the records
/// that come first, then the others.
pub struct DirState<E: StorageExt> {
    /// The depth of the entries of this directory.
    pub depth: Depth,
    pub content: DirContent<E>,
    pub pass: DirPass,
    pub position: DirPosition,
}

impl<E: StorageExt> DirState<E> {
    /// The cursor of the content fits the position.
    pub open spec fn wf(&self) -> bool {
        &&& self.content.wf()
        &&& self.position is BeforeContent ==> self.content.current_pos is None
        &&& self.position is Entry ==> self.content.current_pos is Some
    }

    /// The records that the state has still to stop at, in order, were it
    /// not behind the content.
    pub open spec fn pending_visits(&self, fs: &E, cx: Cx) -> Seq<DirEntryRecord> {
        let all = self.content.all_records(fs, cx, self.depth);
        let tail = select(all.skip(self.content.next_index()), self.pass);
        if self.pass == DirPass::First {
            tail + select(all, DirPass::Second)
        } else {
            tail
        }
    }

    /// The records that `next_position` will stop at from here on, in
    /// order.
    pub open spec fn upcoming(&self, fs: &E, cx: Cx) -> Seq<DirEntryRecord> {
        if self.position is AfterContent {
            seq![]
        } else {
            self.pending_visits(fs, cx)
        }
    }

    /// The record at which the state stands.
    pub open spec fn current(&self) -> DirEntryRecord {
        self.content.content@[self.content.current_pos->0 as int]
    }

    /// Sorts the directory if there is a sorter.
    fn init<S: Sorter>(&mut self, classifier: &Classifier, sorter: &Option<S>, fs: &E)
        requires
            old(self).wf(),
            old(self).position is BeforeContent,
            old(self).content.content@.len() == 0,
            old(self).pass == spec_initial_pass(*classifier.opts),
        ensures
            final(self).wf(),
            final(self).depth == old(self).depth,
            final(self).pass == old(self).pass,
            final(self).position is BeforeContent,
            final(self).upcoming(fs, classifier.cx(old(self).depth)) == spec_visit_order(
                fs,
                classifier.cx(old(self).depth),
                old(self).depth,
                sorter,
                old(self).content.rd.pending(fs),
            ),
            final(self).content.rd is Opened ==> old(self).content.rd is Opened,
            sorter is Some ==> !(final(self).content.rd is Opened),
    {
        let ghost cx = classifier.cx(self.depth);
        let ghost recs = DirEntryRecord::records_of(fs, cx, self.depth, self.content.rd.pending(fs));
        proof {
            assert(self.content.all_records(fs, cx, self.depth) =~= recs);
        }
        match sorter {
            Some(s) => {
                self.content.load_all_and_sort(classifier, self.depth, s, fs);
            },
            None => {},
        }
        proof {
            let all = self.content.all_records(fs, cx, self.depth);
            assert(all.skip(0) =~= all);
        }
    }

    /// The state of the "directory" that holds the root of a walk: the
    /// one entry made of `path`. Fails, naming the path, if the storage
    /// knows nothing of it.
    pub fn new_once<S: Sorter>(
        path: &String,
        depth: Depth,
        classifier: &Classifier,
        sorter: &Option<S>,
        fs: &E,
    ) -> (r: Result<Self, ErrorInner>)
        ensures
            match RawDirEntry::spec_from_path(fs, *path) {
                Err(e) => r == Err::<Self, ErrorInner>(e),
                Ok(raw) => {
                    &&& r is Ok
                    &&& r->Ok_0.wf()
                    &&& r->Ok_0.depth == depth
                    &&& r->Ok_0.position is BeforeContent
                    &&& !(r->Ok_0.content.rd is Opened)
                    &&& r->Ok_0.upcoming(fs, classifier.cx(depth)) == spec_visit_order(
                        fs,
                        classifier.cx(depth),
                        depth,
                        sorter,
                        seq![Ok::<RawDirEntry, ErrorInner>(raw)],
                    )
                },
            },
    {
        let content = match DirContent::new_once(path, fs) {
            Ok(c) => c,
            Err(e) => {
                return Err(e);
            },
        };
        let mut this = DirState {
            depth,
            content,
            pass: get_initial_pass(classifier.opts),
            position: DirPosition::BeforeContent,
        };
        this.init(classifier, sorter, fs);
        Ok(this)
    }

    /// The state of a directory that was opened as `rd`, whose entries
    /// have the depth `depth`. With a sorter the directory is read and
    /// sorted at once.
    pub fn from_read_dir<S: Sorter>(
        rd: ReadDir<E>,
        depth: Depth,
        classifier: &Classifier,
        sorter: &Option<S>,
        fs: &E,
    ) -> (r: Self)
        ensures
            r.wf(),
            r.depth == depth,
            r.position is BeforeContent,
            r.content.rd is Opened ==> rd is Opened,
            sorter is Some ==> !(r.content.rd is Opened),
            r.upcoming(fs, classifier.cx(depth)) == spec_visit_order(
                fs,
                classifier.cx(depth),
                depth,
                sorter,
                rd.pending(fs),
            ),
    {
        let mut this = DirState {
            depth,
            content: DirContent { rd, content: Vec::new(), current_pos: None },
            pass: get_initial_pass(classifier.opts),
            position: DirPosition::BeforeContent,
        };
        this.init(classifier, sorter, fs);
        this
    }

    /// The state of the directory behind `parent`, whose entries have the
    /// depth `depth`. Fails, naming the directory, if it cannot be opened.
    pub fn new<S: Sorter>(
        parent: &RawDirEntry,
        depth: Depth,
        classifier: &Classifier,
        sorter: &Option<S>,
        fs: &E,
    ) -> (r: Result<Self, ErrorInner>)
        ensures
            match parent.spec_read_dir(fs) {
                Err(e) => r == Err::<Self, ErrorInner>(e),
                Ok(raws) => {
                    &&& r is Ok
                    &&& r->Ok_0.wf()
                    &&& r->Ok_0.depth == depth
                    &&& r->Ok_0.position is BeforeContent
                    &&& sorter is Some ==> !(r->Ok_0.content.rd is Opened)
                    &&& r->Ok_0.upcoming(fs, classifier.cx(depth)) == spec_visit_order(
                        fs,
                        classifier.cx(depth),
                        depth,
                        sorter,
                        raws,
                    )
                },
            },
    {
        let mut content = DirContent::new(parent, fs);
        match content.take_open_error() {
            Some(e) => {
                return Err(e);
            },
            None => {},
        }
        Ok(Self::from_read_dir(content.rd, depth, classifier, sorter, fs))
    }

    /// Reads all that is left of the directory and lets go of its stream.
    /// The state stands where it stood, and will stop where it would have.
    pub fn load_all(&mut self, classifier: &Classifier, fs: &E)
        requires
            old(self).wf(),
        ensures
            final(self).wf(),
            final(self).depth == old(self).depth,
            final(self).pass == old(self).pass,
            final(self).position == old(self).position,
            final(self).content.current_pos == old(self).content.current_pos,
            final(self).position is Entry ==> final(self).current() == old(self).current(),
            final(self).upcoming(fs, classifier.cx(old(self).depth)) == old(self).upcoming(
                fs,
                classifier.cx(old(self).depth),
            ),
            !(final(self).content.rd is Opened),
    {
        self.content.load_all(classifier, self.depth, fs);
    }

    /// Moves the cursor to the next record that the current pass stops at,
    /// going over to the second pass when the first is through. Tells
    /// whether there is such a record.
    fn shift_next(&mut self, classifier: &Classifier, fs: &E) -> (r: bool)
        requires
            old(self).wf(),
            !(old(self).position is AfterContent),
        ensures
            final(self).content.wf(),
            final(self).depth == old(self).depth,
            final(self).position == old(self).position,
            final(self).content.rd is Opened ==> old(self).content.rd is Opened,
            r == (old(self).pending_visits(fs, classifier.cx(old(self).depth)).len() > 0),
            r && final(self).pass == old(self).pass ==> final(self).content.content@.len()
                == vstd::math::max(
                old(self).content.content@.len() as int,
                final(self).content.next_index(),
            ),
            r ==> {
                &&& final(self).content.current_pos is Some
                &&& final(self).current() == old(self).pending_visits(
                    fs,
                    classifier.cx(old(self).depth),
                )[0]
                &&& final(self).pending_visits(fs, classifier.cx(old(self).depth))
                    == old(self).pending_visits(fs, classifier.cx(old(self).depth)).skip(1)
            },
    {
        let ghost cx = classifier.cx(self.depth);
        let ghost up = self.pending_visits(fs, cx);
        let ghost all = self.content.all_records(fs, cx, self.depth);
        loop
            invariant
                self.content.wf(),
                self.depth == old(self).depth,
                self.position == old(self).position,
                self.content.rd is Opened ==> old(self).content.rd is Opened,
                cx == classifier.cx(self.depth),
                all == self.content.all_records(fs, cx, self.depth),
                up == self.pending_visits(fs, cx),
                up == old(self).pending_visits(fs, cx),
                0 <= self.content.next_index() <= all.len(),
                self.pass == old(self).pass ==> self.content.content@.len() == vstd::math::max(
                    old(self).content.content@.len() as int,
                    self.content.next_index(),
                ),
                self.pass != old(self).pass ==> self.pass == DirPass::Second,
            decreases
                    (if self.pass == DirPass::First {
                        1int
                    } else {
                        0int
                    }),
                    all.len() - self.content.next_index(),
        {
            let ghost ni = self.content.next_index();
            match self.content.get_next_rec(classifier, self.depth, fs) {
                Some((first_pass, can_be_yielded)) => {
                    proof {
                        lemma_select_skip(all, ni, self.pass);
                    }
                    let valid_pass = match self.pass {
                        DirPass::Entire => true,
                        DirPass::First => first_pass,
                        DirPass::Second => !first_pass,
                    };
                    if valid_pass && can_be_yielded {
                        proof {
                            let tail = select(all.skip(ni + 1), self.pass);
                            if self.pass == DirPass::First {
                                let second = select(all, DirPass::Second);
                                assert((seq![all[ni]] + tail + second).skip(1) =~= tail + second);
                            } else {
                                assert((seq![all[ni]] + tail).skip(1) =~= tail);
                            }
                        }
                        return true;
                    }
                },
                None => {
                    proof {
                        assert(all.skip(ni).len() == 0);
                    }
                    match self.pass {
                        DirPass::First => {
                            self.pass = DirPass::Second;
                            self.content.rewind();
                            proof {
                                assert(all.skip(0) =~= all);
                                assert(seq![] + select(all, DirPass::Second) =~= select(
                                    all,
                                    DirPass::Second,
                                ));
                            }
                        },
                        _ => {
                            return false;
                        },
                    }
                },
            }
        }
    }

    /// Moves to the next record that order and filter let through, or
    /// behind the content if there is none. Behind the content nothing
    /// happens. Within a pass nothing is read beyond the record at which the
    /// state stops.
    pub fn next_position(&mut self, classifier: &Classifier, fs: &E)
        requires
            old(self).wf(),
        ensures
            final(self).wf(),
            final(self).depth == old(self).depth,
            final(self).content.rd is Opened ==> old(self).content.rd is Opened,
            final(self).position is Entry && final(self).pass == old(self).pass
                ==> final(self).content.content@.len() == vstd::math::max(
                old(self).content.content@.len() as int,
                final(self).content.next_index(),
            ),
            old(self).upcoming(fs, classifier.cx(old(self).depth)).len() == 0
                ==> final(self).position is AfterContent,
            old(self).upcoming(fs, classifier.cx(old(self).depth)).len() > 0 ==> {
                &&& final(self).position is Entry
                &&& final(self).current() == old(self).upcoming(
                    fs,
                    classifier.cx(old(self).depth),
                )[0]
                &&& final(self).upcoming(fs, classifier.cx(old(self).depth)) == old(self).upcoming(
                    fs,
                    classifier.cx(old(self).depth),
                ).skip(1)
            },
    {
        match self.position {
            DirPosition::AfterContent => {
                return ;
            },
            _ => {},
        }
        if self.shift_next(classifier, fs) {
            self.position = DirPosition::Entry;
        } else {
            self.position = DirPosition::AfterContent;
        }
    }

    /// Where the state stands, with the record it stands at. Nothing
    /// moves.
    pub fn get_current_position(&self) -> (r: Position<(), FlatDirEntryRef<'_>, ErrorInnerRef<'_>>)
        requires
            self.wf(),
        ensures
            match r {
                Position::BeforeContent(_) => self.position is BeforeContent,
                Position::Entry(f) => {
                    &&& self.position is Entry
                    &&& self.current().flat == Ok::<FlatDirEntry, ErrorInner>(*f.flat)
                    &&& f.depth == self.depth
                    &&& f.hidden == self.current().hidden
                },
                Position::Error(e) => {
                    &&& self.position is Entry
                    &&& self.current().flat == Err::<FlatDirEntry, ErrorInner>(*e.err)
                    &&& e.depth == self.depth
                },
                Position::AfterContent => self.position is AfterContent,
            },
    {
        match self.position {
            DirPosition::BeforeContent => Position::BeforeContent(()),
            DirPosition::Entry => {
                match self.content.get_current_rec(self.depth) {
                    Ok(flat) => Position::Entry(flat),
                    Err(err) => Position::Error(err),
                }
            },
            DirPosition::AfterContent => Position::AfterContent,
        }
    }

    /// Reads the whole directory and makes the caller's items of its
    /// entries, in the order in which they were read (or sorted), whatever
    /// order and filter of the walk say: `filter` alone decides. The state
    /// stands where it stood.
    pub fn clone_all_content<CP: ContentProcessor>(
        &mut self,
        filter: ContentFilter,
        classifier: &Classifier,
        content_processor: &CP,
        fs: &E,
    ) -> (r: Vec<CP::Item>)
        requires
            old(self).wf(),
        ensures
            final(self).wf(),
            final(self).depth == old(self).depth,
            final(self).pass == old(self).pass,
            final(self).position == old(self).position,
            final(self).content.current_pos == old(self).content.current_pos,
            final(self).position is Entry ==> final(self).current() == old(self).current(),
            final(self).upcoming(fs, classifier.cx(old(self).depth)) == old(self).upcoming(
                fs,
                classifier.cx(old(self).depth),
            ),
            !(final(self).content.rd is Opened),
            r@ == spec_clone_all(
                content_processor,
                old(self).depth,
                filter,
                old(self).content.all_records(fs, classifier.cx(old(self).depth), old(self).depth),
            ),
    {
        self.content.load_all(classifier, self.depth, fs);
        let mut out: Vec<CP::Item> = Vec::new();
        let mut i: usize = 0;
        while i < self.content.content.len()
            invariant
                i <= self.content.content@.len(),
                out@ == spec_clone_all(
                    content_processor,
                    self.depth,
                    filter,
                    self.content.content@.take(i as int),
                ),
            decreases self.content.content@.len() - i,
        {
            proof {
                assert(self.content.content@.take(i + 1).drop_last()
                    =~= self.content.content@.take(i as int));
            }
            match &self.content.content[i].flat {
                Ok(flat) => {
                    let passes = match filter {
                        ContentFilter::NoFilter => true,
                        ContentFilter::DirsOnly => flat.is_dir,
                        ContentFilter::FilesOnly => !flat.is_dir,
                        ContentFilter::SkipAll => false,
                    };
                    if passes {
                        match content_processor.process_direntry(flat, self.depth) {
                            Some(item) => {
                                out.push(item);
                            },
                            None => {},
                        }
                    }
                },
                Err(_) => {},
            }
            i = i + 1;
        }
        proof {
            assert(self.content.content@.take(i as int) =~= self.content.content@);
        }
        out
    }

    /// The depth of the entries of this directory.
    pub fn depth(&self) -> (r: Depth)
        ensures
            r == self.depth,
    {
        self.depth
    }

    /// Puts the state behind the content: what is left is never visited.
    pub fn skip_all(&mut self)
        ensures
            final(self).position is AfterContent,
            final(self).depth == old(self).depth,
            final(self).content == old(self).content,
            final(self).pass == old(self).pass,
            old(self).wf() ==> final(self).wf(),
    {
        self.position = DirPosition::AfterContent;
    }
}

} // verus!
