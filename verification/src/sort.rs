//! Sorting the entries of one directory.
use std::cmp::Ordering;
use vstd::prelude::*;
use vstd::string::*;
use crate::dir::DirEntryRecord;
use crate::rawdent::RawDirEntry;

verus! {

/// An order of the entries of one directory.
///
/// `precedes(a, b)` says that `a` may stand before `b`: it is what
/// `compare` answers with anything but `Greater`. A sorter is meant to be a
/// total preorder; what sorting achieves with one is stated by
/// [`lemma_sort_records_sorted`].
pub trait Sorter {
    /// `a` may stand before `b`.
    spec fn precedes(&self, a: &RawDirEntry, b: &RawDirEntry) -> bool;

    /// Compares two entries of one directory.
    fn compare(&self, a: &RawDirEntry, b: &RawDirEntry) -> (r: Ordering)
        ensures
            (r == Ordering::Greater) == !self.precedes(a, b),
    ;
}

/// Orders entries by their paths, byte by byte in their UTF-8 form (which
/// is the order of their characters).
#[derive(Clone, Copy, Debug, Default)]
pub struct ByPath {}

/// `a` is no greater than `b` in the order of the dictionary.
pub open spec fn bytes_le(a: Seq<u8>, b: Seq<u8>) -> bool
    decreases a.len(),
{
    if a.len() == 0 {
        true
    } else if b.len() == 0 {
        false
    } else if a[0] != b[0] {
        a[0] < b[0]
    } else {
        bytes_le(a.skip(1), b.skip(1))
    }
}

/// Compares two byte strings in the order of the dictionary: -1 where `a`
/// is less than `b`, 0 where they are equal, 1 where `a` is greater.
pub fn bytes_order(a: &[u8], b: &[u8]) -> (r: i8)
    ensures
        -1 <= r <= 1,
        (r == 1) == !bytes_le(a@, b@),
        (r == 0) == (a@ == b@),
{
    let mut i: usize = 0;
    proof {
        assert(a@.skip(0) =~= a@);
        assert(b@.skip(0) =~= b@);
    }
    while i < a.len() && i < b.len()
        invariant
            i <= a@.len(),
            i <= b@.len(),
            bytes_le(a@, b@) == bytes_le(a@.skip(i as int), b@.skip(i as int)),
            a@.take(i as int) == b@.take(i as int),
        decreases a@.len() - i,
    {
        proof {
            assert(a@.skip(i as int)[0] == a@[i as int]);
            assert(b@.skip(i as int)[0] == b@[i as int]);
            assert(a@.skip(i as int).skip(1) =~= a@.skip(i + 1));
            assert(b@.skip(i as int).skip(1) =~= b@.skip(i + 1));
        }
        if a[i] != b[i] {
            proof {
                if a@ == b@ {
                    assert(a@[i as int] == b@[i as int]);
                }
            }
            if a[i] < b[i] {
                return -1;
            } else {
                return 1;
            }
        }
        proof {
            assert(a@.take(i + 1) =~= a@.take(i as int).push(a@[i as int]));
            assert(b@.take(i + 1) =~= b@.take(i as int).push(b@[i as int]));
        }
        i = i + 1;
    }
    proof {
        if i == a@.len() {
            assert(a@.take(i as int) =~= a@);
        }
        if i == b@.len() {
            assert(b@.take(i as int) =~= b@);
        }
        if a@ == b@ {
            assert(a@.len() == b@.len());
        }
    }
    if a.len() == b.len() {
        0
    } else if a.len() < b.len() {
        -1
    } else {
        1
    }
}

/// Of two byte strings one is no greater than the other.
pub proof fn lemma_bytes_le_total(a: Seq<u8>, b: Seq<u8>)
    ensures
        bytes_le(a, b) || bytes_le(b, a),
    decreases a.len(),
{
    if a.len() > 0 && b.len() > 0 && a[0] == b[0] {
        lemma_bytes_le_total(a.skip(1), b.skip(1));
    }
}

/// What is no greater than a byte string is no greater than all that the
/// byte string is no greater than.
pub proof fn lemma_bytes_le_transitive(a: Seq<u8>, b: Seq<u8>, c: Seq<u8>)
    requires
        bytes_le(a, b),
        bytes_le(b, c),
    ensures
        bytes_le(a, c),
    decreases a.len(),
{
    if a.len() > 0 && b.len() > 0 && c.len() > 0 && a[0] == b[0] && b[0] == c[0] {
        lemma_bytes_le_transitive(a.skip(1), b.skip(1), c.skip(1));
    }
}

/// The order of the paths orders all entries.
pub proof fn lemma_by_path_total_preorder(sorter: &ByPath)
    ensures
        is_total_preorder(sorter),
{
    assert forall|a: RawDirEntry, b: RawDirEntry|
        #![trigger sorter.precedes(&a, &b)]
        sorter.precedes(&a, &b) || sorter.precedes(&b, &a) by {
        lemma_bytes_le_total(vstd::utf8::encode_utf8(a.path@), vstd::utf8::encode_utf8(b.path@));
    }
    assert forall|a: RawDirEntry, b: RawDirEntry, c: RawDirEntry|
        #![trigger sorter.precedes(&a, &b), sorter.precedes(&b, &c)]
        sorter.precedes(&a, &b) && sorter.precedes(&b, &c) implies sorter.precedes(&a, &c) by {
        lemma_bytes_le_transitive(
            vstd::utf8::encode_utf8(a.path@),
            vstd::utf8::encode_utf8(b.path@),
            vstd::utf8::encode_utf8(c.path@),
        );
    }
}

impl Sorter for ByPath {
    open spec fn precedes(&self, a: &RawDirEntry, b: &RawDirEntry) -> bool {
        bytes_le(vstd::utf8::encode_utf8(a.path@), vstd::utf8::encode_utf8(b.path@))
    }

    fn compare(&self, a: &RawDirEntry, b: &RawDirEntry) -> (r: Ordering)
        ensures
            (r == Ordering::Equal) == (vstd::utf8::encode_utf8(a.path@) == vstd::utf8::encode_utf8(
                b.path@,
            )),
    {
        let code = bytes_order(a.path.as_str().as_bytes(), b.path.as_str().as_bytes());
        if code < 0 {
            Ordering::Less
        } else if code == 0 {
            Ordering::Equal
        } else {
            Ordering::Greater
        }
    }
}

impl RawDirEntry {
    /// Compares two entries with a sorter.
    pub fn call_cmp<S: Sorter>(a: &RawDirEntry, b: &RawDirEntry, cmp: &S) -> (r: Ordering)
        ensures
            (r == Ordering::Greater) == !cmp.precedes(a, b),
    {
        cmp.compare(a, b)
    }
}

/// `a` may stand before `b` in a sorted directory: entries go by the
/// sorter, an error stands behind every entry, and errors keep their order.
pub open spec fn record_precedes<S: Sorter>(
    sorter: &S,
    a: &DirEntryRecord,
    b: &DirEntryRecord,
) -> bool {
    match (a.flat, b.flat) {
        (Ok(x), Ok(y)) => sorter.precedes(&x.raw, &y.raw),
        (Ok(_), Err(_)) => true,
        (Err(_), Ok(_)) => false,
        (Err(_), Err(_)) => true,
    }
}

/// Two sorted runs of records merged into one. Of two records that the
/// sorter holds equal, one of `a` stands before one of `b`.
pub open spec fn merge_records<S: Sorter>(
    sorter: &S,
    a: Seq<DirEntryRecord>,
    b: Seq<DirEntryRecord>,
) -> Seq<DirEntryRecord>
    decreases a.len() + b.len(),
{
    if a.len() == 0 {
        b
    } else if b.len() == 0 {
        a
    } else if record_precedes(sorter, &a.last(), &b.last()) {
        merge_records(sorter, a, b.drop_last()).push(b.last())
    } else {
        merge_records(sorter, a.drop_last(), b).push(a.last())
    }
}

/// The records of a directory in sorted order: each half sorted, and the
/// two merged. Records that the sorter holds equal keep the order in which
/// they were read.
pub open spec fn sort_records<S: Sorter>(sorter: &S, s: Seq<DirEntryRecord>) -> Seq<
    DirEntryRecord,
>
    decreases s.len(),
{
    if s.len() <= 1 {
        s
    } else {
        let mid = (s.len() / 2) as int;
        merge_records(
            sorter,
            sort_records(sorter, s.take(mid)),
            sort_records(sorter, s.skip(mid)),
        )
    }
}

/// The sorter orders all entries: of two entries one may stand before the
/// other, and what may stand before an entry may stand before all that the
/// entry may stand before.
pub open spec fn is_total_preorder<S: Sorter>(sorter: &S) -> bool {
    &&& forall|a: RawDirEntry, b: RawDirEntry|
        #![trigger sorter.precedes(&a, &b)]
        sorter.precedes(&a, &b) || sorter.precedes(&b, &a)
    &&& forall|a: RawDirEntry, b: RawDirEntry, c: RawDirEntry|
        #![trigger sorter.precedes(&a, &b), sorter.precedes(&b, &c)]
        sorter.precedes(&a, &b) && sorter.precedes(&b, &c) ==> sorter.precedes(&a, &c)
}

/// Each record of `s` may stand before all that follow it.
pub open spec fn is_sorted<S: Sorter>(sorter: &S, s: Seq<DirEntryRecord>) -> bool {
    forall|i: int, j: int|
        #![trigger s[i], s[j]]
        0 <= i < j < s.len() ==> record_precedes(sorter, &s[i], &s[j])
}

/// With a sorter that orders all entries, all records are ordered: the
/// entries by the sorter, with the errors behind them.
pub proof fn lemma_record_precedes_total_preorder<S: Sorter>(
    sorter: &S,
    a: DirEntryRecord,
    b: DirEntryRecord,
    c: DirEntryRecord,
)
    requires
        is_total_preorder(sorter),
    ensures
        record_precedes(sorter, &a, &b) || record_precedes(sorter, &b, &a),
        record_precedes(sorter, &a, &b) && record_precedes(sorter, &b, &c) ==> record_precedes(
            sorter,
            &a,
            &c,
        ),
{
    match (a.flat, b.flat) {
        (Ok(x), Ok(y)) => {
            assert(sorter.precedes(&x.raw, &y.raw) || sorter.precedes(&y.raw, &x.raw));
            match c.flat {
                Ok(z) => {
                    assert(sorter.precedes(&x.raw, &y.raw) && sorter.precedes(&y.raw, &z.raw)
                        ==> sorter.precedes(&x.raw, &z.raw));
                },
                Err(_) => {},
            }
        },
        _ => {},
    }
}

/// Merging keeps the records: each record of the merged run is a record
/// of one of the two runs, and the merged run has the length of both.
pub proof fn lemma_merge_records_elements<S: Sorter>(
    sorter: &S,
    a: Seq<DirEntryRecord>,
    b: Seq<DirEntryRecord>,
)
    ensures
        merge_records(sorter, a, b).len() == a.len() + b.len(),
        forall|k: int|
            0 <= k < a.len() + b.len() ==> a.contains(#[trigger] merge_records(sorter, a, b)[k])
                || b.contains(merge_records(sorter, a, b)[k]),
        merge_records(sorter, a, b).to_multiset() == a.to_multiset().add(b.to_multiset()),
    decreases a.len() + b.len(),
{
    broadcast use vstd::multiset::group_multiset_axioms;

    let m = merge_records(sorter, a, b);
    if a.len() == 0 {
        assert(a.to_multiset() =~= vstd::multiset::Multiset::empty()) by {
            a.to_multiset_ensures();
        }
        assert(m.to_multiset() =~= a.to_multiset().add(b.to_multiset()));
        assert forall|k: int| 0 <= k < b.len() implies b.contains(#[trigger] m[k]) by {}
    } else if b.len() == 0 {
        assert(b.to_multiset() =~= vstd::multiset::Multiset::empty()) by {
            b.to_multiset_ensures();
        }
        assert(m.to_multiset() =~= a.to_multiset().add(b.to_multiset()));
        assert forall|k: int| 0 <= k < a.len() implies a.contains(#[trigger] m[k]) by {}
    } else if record_precedes(sorter, &a.last(), &b.last()) {
        let b2 = b.drop_last();
        let m2 = merge_records(sorter, a, b2);
        lemma_merge_records_elements(sorter, a, b2);
        assert forall|k: int| 0 <= k < a.len() + b.len() implies a.contains(#[trigger] m[k])
            || b.contains(m[k]) by {
            if k < m2.len() {
                assert(m[k] == m2[k]);
                if !a.contains(m2[k]) {
                    let j = choose|j: int| 0 <= j < b2.len() && b2[j] == m2[k];
                    assert(b[j] == m[k]);
                }
            } else {
                assert(m[k] == b[b.len() - 1]);
            }
        }
        vstd::seq_lib::to_multiset_build(m2, b.last());
        vstd::seq_lib::to_multiset_build(b2, b.last());
        assert(b2.push(b.last()) =~= b);
        assert(m.to_multiset() =~= a.to_multiset().add(b.to_multiset()));
    } else {
        let a2 = a.drop_last();
        let m2 = merge_records(sorter, a2, b);
        lemma_merge_records_elements(sorter, a2, b);
        assert forall|k: int| 0 <= k < a.len() + b.len() implies a.contains(#[trigger] m[k])
            || b.contains(m[k]) by {
            if k < m2.len() {
                assert(m[k] == m2[k]);
                if !b.contains(m2[k]) {
                    let j = choose|j: int| 0 <= j < a2.len() && a2[j] == m2[k];
                    assert(a[j] == m[k]);
                }
            } else {
                assert(m[k] == a[a.len() - 1]);
            }
        }
        vstd::seq_lib::to_multiset_build(m2, a.last());
        vstd::seq_lib::to_multiset_build(a2, a.last());
        assert(a2.push(a.last()) =~= a);
        assert(m.to_multiset() =~= a.to_multiset().add(b.to_multiset()));
    }
}

/// Two sorted runs merge into a sorted run.
pub proof fn lemma_merge_records_sorted<S: Sorter>(
    sorter: &S,
    a: Seq<DirEntryRecord>,
    b: Seq<DirEntryRecord>,
)
    requires
        is_total_preorder(sorter),
        is_sorted(sorter, a),
        is_sorted(sorter, b),
    ensures
        is_sorted(sorter, merge_records(sorter, a, b)),
    decreases a.len() + b.len(),
{
    let m = merge_records(sorter, a, b);
    if a.len() == 0 || b.len() == 0 {
    } else {
        let take_b = record_precedes(sorter, &a.last(), &b.last());
        let a2 = if take_b {
            a
        } else {
            a.drop_last()
        };
        let b2 = if take_b {
            b.drop_last()
        } else {
            b
        };
        let x = if take_b {
            b.last()
        } else {
            a.last()
        };
        let m2 = merge_records(sorter, a2, b2);
        assert forall|i: int, j: int| 0 <= i < j < a2.len() implies record_precedes(
            sorter,
            &#[trigger] a2[i],
            &#[trigger] a2[j],
        ) by {
            assert(record_precedes(sorter, &a[i], &a[j]));
        }
        assert forall|i: int, j: int| 0 <= i < j < b2.len() implies record_precedes(
            sorter,
            &#[trigger] b2[i],
            &#[trigger] b2[j],
        ) by {
            assert(record_precedes(sorter, &b[i], &b[j]));
        }
        lemma_merge_records_sorted(sorter, a2, b2);
        lemma_merge_records_elements(sorter, a2, b2);
        assert(m == m2.push(x));
        lemma_record_precedes_total_preorder(sorter, a.last(), b.last(), b.last());
        assert forall|i: int, j: int| 0 <= i < j < m.len() implies record_precedes(
            sorter,
            &#[trigger] m[i],
            &#[trigger] m[j],
        ) by {
            if j < m2.len() {
                assert(record_precedes(sorter, &m2[i], &m2[j]));
            } else {
                // m[j] is x, the greatest of both runs
                assert(m[i] == m2[i]);
                if a2.contains(m2[i]) {
                    let k = choose|k: int| 0 <= k < a2.len() && a2[k] == m2[i];
                    if k < a.len() - 1 {
                        assert(record_precedes(sorter, &a[k], &a[a.len() - 1]));
                    }
                    lemma_record_precedes_total_preorder(sorter, a[k], a.last(), a.last());
                    lemma_record_precedes_total_preorder(sorter, a[k], a.last(), b.last());
                } else {
                    let k = choose|k: int| 0 <= k < b2.len() && b2[k] == m2[i];
                    if k < b.len() - 1 {
                        assert(record_precedes(sorter, &b[k], &b[b.len() - 1]));
                    }
                    lemma_record_precedes_total_preorder(sorter, b[k], b.last(), b.last());
                    lemma_record_precedes_total_preorder(sorter, b[k], b.last(), a.last());
                }
            }
        }
    }
}

/// With a sorter that orders all entries, a sorted directory holds the
/// records that it held before, each as often as before, and each may
/// stand before all that follow it: the entries in the order of the sorter,
/// the errors behind them.
pub proof fn lemma_sort_records_sorted<S: Sorter>(sorter: &S, s: Seq<DirEntryRecord>)
    requires
        is_total_preorder(sorter),
    ensures
        is_sorted(sorter, sort_records(sorter, s)),
        sort_records(sorter, s).to_multiset() == s.to_multiset(),
        sort_records(sorter, s).len() == s.len(),
    decreases s.len(),
{
    if s.len() > 1 {
        let mid = (s.len() / 2) as int;
        let a = s.take(mid);
        let b = s.skip(mid);
        lemma_sort_records_sorted(sorter, a);
        lemma_sort_records_sorted(sorter, b);
        lemma_merge_records_sorted(sorter, sort_records(sorter, a), sort_records(sorter, b));
        lemma_merge_records_elements(sorter, sort_records(sorter, a), sort_records(sorter, b));
        assert(s =~= a + b);
        vstd::seq_lib::lemma_multiset_commutative(a, b);
    }
}

/// Sorting makes no record: whatever the sorter, each record of the sorted
/// directory is a record of the directory.
pub proof fn lemma_sort_records_elements<S: Sorter>(sorter: &S, s: Seq<DirEntryRecord>, k: int)
    requires
        0 <= k < sort_records(sorter, s).len(),
    ensures
        s.contains(sort_records(sorter, s)[k]),
    decreases s.len(),
{
    if s.len() > 1 {
        let mid = (s.len() / 2) as int;
        let a = s.take(mid);
        let b = s.skip(mid);
        let sa = sort_records(sorter, a);
        let sb = sort_records(sorter, b);
        lemma_merge_records_elements(sorter, sa, sb);
        let r = sort_records(sorter, s)[k];
        if sa.contains(r) {
            let i = choose|i: int| 0 <= i < sa.len() && sa[i] == r;
            lemma_sort_records_elements(sorter, a, i);
            let j = choose|j: int| 0 <= j < a.len() && a[j] == r;
            assert(s[j] == r);
        } else {
            let i = choose|i: int| 0 <= i < sb.len() && sb[i] == r;
            lemma_sort_records_elements(sorter, b, i);
            let j = choose|j: int| 0 <= j < b.len() && b[j] == r;
            assert(s[j + mid] == r);
        }
    }
}

/// Merging two runs that are sorted in a row changes nothing.
pub proof fn lemma_merge_records_in_a_row<S: Sorter>(
    sorter: &S,
    a: Seq<DirEntryRecord>,
    b: Seq<DirEntryRecord>,
)
    requires
        is_sorted(sorter, a + b),
    ensures
        merge_records(sorter, a, b) == a + b,
    decreases b.len(),
{
    if a.len() == 0 {
        assert(a + b =~= b);
    } else if b.len() == 0 {
        assert(a + b =~= a);
    } else {
        let s = a + b;
        assert(s[a.len() - 1] == a.last());
        assert(s[s.len() - 1] == b.last());
        assert(record_precedes(sorter, &s[a.len() - 1], &s[s.len() - 1]));
        let b2 = b.drop_last();
        assert(a + b2 =~= s.drop_last());
        assert forall|i: int, j: int| 0 <= i < j < (a + b2).len() implies record_precedes(
            sorter,
            &#[trigger] (a + b2)[i],
            &#[trigger] (a + b2)[j],
        ) by {
            assert(record_precedes(sorter, &s[i], &s[j]));
        }
        lemma_merge_records_in_a_row(sorter, a, b2);
        assert((a + b2).push(b.last()) =~= a + b);
    }
}

/// Sorting a sorted directory changes nothing: sorting twice is sorting
/// once.
pub proof fn lemma_sort_records_idempotent<S: Sorter>(sorter: &S, s: Seq<DirEntryRecord>)
    requires
        is_sorted(sorter, s),
    ensures
        sort_records(sorter, s) == s,
    decreases s.len(),
{
    if s.len() > 1 {
        let mid = (s.len() / 2) as int;
        let a = s.take(mid);
        let b = s.skip(mid);
        assert forall|i: int, j: int| 0 <= i < j < a.len() implies record_precedes(
            sorter,
            &#[trigger] a[i],
            &#[trigger] a[j],
        ) by {
            assert(record_precedes(sorter, &s[i], &s[j]));
        }
        assert forall|i: int, j: int| 0 <= i < j < b.len() implies record_precedes(
            sorter,
            &#[trigger] b[i],
            &#[trigger] b[j],
        ) by {
            assert(record_precedes(sorter, &s[i + mid], &s[j + mid]));
        }
        lemma_sort_records_idempotent(sorter, a);
        lemma_sort_records_idempotent(sorter, b);
        assert(a + b =~= s);
        lemma_merge_records_in_a_row(sorter, a, b);
    }
}

/// May `a` stand before `b` in a sorted directory?
pub fn record_le<S: Sorter>(sorter: &S, a: &DirEntryRecord, b: &DirEntryRecord) -> (r: bool)
    ensures
        r == record_precedes(sorter, a, b),
{
    match (&a.flat, &b.flat) {
        (Ok(x), Ok(y)) => match sorter.compare(&x.raw, &y.raw) {
            Ordering::Greater => false,
            _ => true,
        },
        (Ok(_), Err(_)) => true,
        (Err(_), Ok(_)) => false,
        (Err(_), Err(_)) => true,
    }
}

/// The sequence `s` read from its end.
pub open spec fn backwards(s: Seq<DirEntryRecord>) -> Seq<DirEntryRecord> {
    Seq::new(s.len(), |i: int| s[s.len() - 1 - i])
}

/// Merges the sorted run `b` into the sorted run `a`.
pub fn merge_content<S: Sorter>(a: &mut Vec<DirEntryRecord>, b: Vec<DirEntryRecord>, sorter: &S)
    ensures
        final(a)@ == merge_records(sorter, old(a)@, b@),
{
    let ghost target = merge_records(sorter, a@, b@);
    let mut b = b;
    // The greatest records of both runs, the greatest first.
    let mut tail: Vec<DirEntryRecord> = Vec::new();
    proof {
        assert(backwards(tail@) =~= seq![]);
        assert(merge_records(sorter, a@, b@) + backwards(tail@) =~= target);
    }
    loop
        invariant
            merge_records(sorter, a@, b@) + backwards(tail@) == target,
        ensures
            a@.len() == 0 || b@.len() == 0,
            merge_records(sorter, a@, b@) + backwards(tail@) == target,
        decreases a@.len() + b@.len(),
    {
        if a.len() == 0 || b.len() == 0 {
            break ;
        }
        let ghost a0 = a@;
        let ghost b0 = b@;
        let ghost t0 = tail@;
        let take_b = record_le(sorter, &a[a.len() - 1], &b[b.len() - 1]);
        let x = if take_b {
            b.pop().unwrap()
        } else {
            a.pop().unwrap()
        };
        tail.push(x);
        proof {
            assert(backwards(tail@) =~= seq![x] + backwards(t0));
            assert(merge_records(sorter, a0, b0) == merge_records(sorter, a@, b@).push(x));
            assert(merge_records(sorter, a@, b@).push(x) + backwards(t0) =~= merge_records(
                sorter,
                a@,
                b@,
            ) + (seq![x] + backwards(t0)));
        }
    }
    if a.len() == 0 {
        std::mem::swap(a, &mut b);
    }
    proof {
        assert(a@ + backwards(tail@) == target);
    }
    while tail.len() > 0
        invariant
            a@ + backwards(tail@) == target,
        decreases tail@.len(),
    {
        let ghost a0 = a@;
        let ghost t0 = tail@;
        let x = tail.pop().unwrap();
        a.push(x);
        proof {
            assert(backwards(t0) =~= seq![x] + backwards(tail@));
            assert(a0.push(x) + backwards(tail@) =~= a0 + (seq![x] + backwards(tail@)));
        }
    }
    proof {
        assert(a@ + backwards(tail@) =~= a@);
    }
}

/// Sorts the records of a directory in place. Records that the sorter
/// holds equal keep their order.
pub fn sort_content<S: Sorter>(v: &mut Vec<DirEntryRecord>, sorter: &S)
    ensures
        final(v)@ == sort_records(sorter, old(v)@),
    decreases old(v)@.len(),
{
    let n = v.len();
    if n <= 1 {
        return ;
    }
    let ghost orig = v@;
    let mid = n / 2;
    let mut right = v.split_off(mid);
    proof {
        assert(v@ =~= orig.take(mid as int));
        assert(right@ =~= orig.skip(mid as int));
    }
    sort_content(v, sorter);
    sort_content(&mut right, sorter);
    merge_content(v, right, sorter);
}

} // verus!
