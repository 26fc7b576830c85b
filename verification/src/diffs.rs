//! Specification-level model of line diffs.
//!
//! A line diff deletes the lines `[d0, d1)` of a file and inserts `ins` fresh
//! lines, all attributed to `cohort`, in their place.  All indices refer to
//! the file as it was before any diff of the batch was applied.  The meaning
//! of a batch is given by `apply_diffs`: the batch is first put in ascending
//! order of delete start (stably, so that diffs with equal starts keep their
//! relative order), and the sorted batch then denotes the spliced sequence
//! computed by `splice_suffix`.

use vstd::prelude::*;
use core::ops::Range;

verus! {

/// One line diff, as a mathematical value.
pub ghost struct DiffV {
    /// First deleted line (inclusive).
    pub d0: int,
    /// End of the deleted range (exclusive).
    pub d1: int,
    /// Number of inserted lines.
    pub ins: int,
    /// Cohort attributed to the inserted lines.
    pub cohort: u64,
}

/// The mathematical value of one executable diff tuple.  Only the length of
/// the insert range matters; its absolute positions are not consulted.
pub open spec fn dv(t: (Range<u32>, Range<u32>, u64)) -> DiffV {
    DiffV {
        d0: t.0.start as int,
        d1: t.0.end as int,
        ins: t.1.end - t.1.start,
        cohort: t.2,
    }
}

/// The mathematical values of a batch of executable diff tuples.
pub open spec fn diff_views(ts: Seq<(Range<u32>, Range<u32>, u64)>) -> Seq<DiffV> {
    ts.map_values(|t: (Range<u32>, Range<u32>, u64)| dv(t))
}

/// A diff is well formed for a file of `total` lines when both of its ranges
/// are proper and the deleted range lies within the file.
pub open spec fn diff_wf(d: DiffV, total: int) -> bool {
    0 <= d.d0 <= d.d1 <= total && 0 <= d.ins
}

pub open spec fn diffs_wf(ds: Seq<DiffV>, total: int) -> bool {
    forall|k: int| 0 <= k < ds.len() ==> diff_wf(#[trigger] ds[k], total)
}

/// No two diffs of a batch may delete overlapping ranges.  Stated pairwise:
/// whenever one diff starts at or before another, its deleted range must end
/// at or before the other starts.  (Two diffs with equal starts are therefore
/// both pure insertions.)
pub open spec fn pairwise_disjoint(ds: Seq<DiffV>) -> bool {
    forall|i: int, j: int|
        0 <= i < ds.len() && 0 <= j < ds.len() && i != j && #[trigger] ds[i].d0 <= #[trigger] ds[j].d0
            ==> ds[i].d1 <= ds[j].d0
}

/// Ascending order of delete start.
pub open spec fn sorted_by_start(ds: Seq<DiffV>) -> bool {
    forall|i: int, j: int| 0 <= i < j < ds.len() ==> #[trigger] ds[i].d0 <= #[trigger] ds[j].d0
}

/// In a sorted disjoint batch consecutive diffs chain: each delete ends at or
/// before the next one starts.
pub open spec fn chained(ds: Seq<DiffV>) -> bool {
    forall|k: int| 0 <= k < ds.len() - 1 ==> #[trigger] ds[k].d1 <= ds[k + 1].d0
}

/// Stable insertion of `x` into `ds`: `x` lands after every element whose
/// start is at most `x`'s.
pub open spec fn insert_sorted(ds: Seq<DiffV>, x: DiffV) -> Seq<DiffV>
    decreases ds.len(),
{
    if ds.len() == 0 {
        seq![x]
    } else if ds.last().d0 <= x.d0 {
        ds.push(x)
    } else {
        insert_sorted(ds.drop_last(), x).push(ds.last())
    }
}

/// Stable sort of a batch by delete start: insert the elements left to right.
pub open spec fn sort_diffs(ds: Seq<DiffV>) -> Seq<DiffV>
    decreases ds.len(),
{
    if ds.len() == 0 {
        Seq::<DiffV>::empty()
    } else {
        insert_sorted(sort_diffs(ds.drop_last()), ds.last())
    }
}

pub proof fn lemma_insert_sorted_basic(ds: Seq<DiffV>, x: DiffV)
    ensures
        insert_sorted(ds, x).len() == ds.len() + 1,
        insert_sorted(ds, x).to_multiset() == ds.to_multiset().insert(x),
        forall|e: DiffV| #![trigger insert_sorted(ds, x).contains(e)]
            insert_sorted(ds, x).contains(e) <==> (ds.contains(e) || e == x),
        forall|e: DiffV| #![trigger ds.contains(e)]
            insert_sorted(ds, x).contains(e) <==> (ds.contains(e) || e == x),
    decreases ds.len(),
{
    broadcast use vstd::seq_lib::group_to_multiset_ensures;

    if ds.len() == 0 {
        assert(insert_sorted(ds, x) =~= Seq::<DiffV>::empty().push(x));
        assert(Seq::<DiffV>::empty().push(x).to_multiset() =~= ds.to_multiset().insert(x));
        assert forall|e: DiffV| insert_sorted(ds, x).contains(e) implies (ds.contains(e) || e == x) by {
            let i = choose|i: int| 0 <= i < insert_sorted(ds, x).len() && insert_sorted(ds, x)[i] == e;
            assert(i == 0);
        }
        assert(insert_sorted(ds, x)[0] == x);
    } else if ds.last().d0 <= x.d0 {
        assert forall|e: DiffV| ds.push(x).contains(e) implies (ds.contains(e) || e == x) by {
            let i = choose|i: int| 0 <= i < ds.push(x).len() && ds.push(x)[i] == e;
            if i < ds.len() {
                assert(ds[i] == e);
            }
        }
        assert forall|e: DiffV| ds.contains(e) implies ds.push(x).contains(e) by {
            let i = choose|i: int| 0 <= i < ds.len() && ds[i] == e;
            assert(ds.push(x)[i] == e);
        }
        assert(ds.push(x).contains(x)) by {
            assert(ds.push(x)[ds.len() as int] == x);
        }
    } else {
        lemma_insert_sorted_basic(ds.drop_last(), x);
        let inner = insert_sorted(ds.drop_last(), x);
        assert(inner.push(ds.last()).to_multiset() =~= inner.to_multiset().insert(ds.last()));
        assert(ds.drop_last().push(ds.last()) =~= ds);
        assert(ds.drop_last().push(ds.last()).to_multiset() =~= ds.drop_last().to_multiset().insert(ds.last()));
        assert(inner.push(ds.last()).to_multiset() =~= ds.to_multiset().insert(x)) by {
            assert(inner.to_multiset() =~= ds.drop_last().to_multiset().insert(x));
        }
        assert forall|e: DiffV| insert_sorted(ds, x).contains(e) implies (ds.contains(e) || e == x) by {
            let i = choose|i: int| 0 <= i < inner.push(ds.last()).len() && inner.push(ds.last())[i] == e;
            if i < inner.len() {
                assert(inner.contains(e));
                if ds.drop_last().contains(e) {
                    let j = choose|j: int| 0 <= j < ds.drop_last().len() && ds.drop_last()[j] == e;
                    assert(ds[j] == e);
                }
            } else {
                assert(e == ds.last());
                assert(ds[ds.len() - 1] == e);
            }
        }
        assert forall|e: DiffV| (ds.contains(e) || e == x) implies insert_sorted(ds, x).contains(e) by {
            if e == x {
                assert(inner.contains(x));
                let j = choose|j: int| 0 <= j < inner.len() && inner[j] == x;
                assert(inner.push(ds.last())[j] == x);
            } else {
                let i = choose|i: int| 0 <= i < ds.len() && ds[i] == e;
                if i < ds.len() - 1 {
                    assert(ds.drop_last()[i] == e);
                    assert(inner.contains(e));
                    let j = choose|j: int| 0 <= j < inner.len() && inner[j] == e;
                    assert(inner.push(ds.last())[j] == e);
                } else {
                    assert(inner.push(ds.last()).last() == ds.last());
                }
            }
        }
    }
}

pub proof fn lemma_insert_sorted_sorted(ds: Seq<DiffV>, x: DiffV)
    requires
        sorted_by_start(ds),
    ensures
        sorted_by_start(insert_sorted(ds, x)),
    decreases ds.len(),
{
    if ds.len() == 0 {
    } else if ds.last().d0 <= x.d0 {
        let r = ds.push(x);
        assert forall|i: int, j: int| 0 <= i < j < r.len() implies #[trigger] r[i].d0 <= #[trigger] r[j].d0 by {
            if j < ds.len() {
                assert(ds[i].d0 <= ds[j].d0);
            } else {
                if i < ds.len() - 1 {
                    assert(ds[i].d0 <= ds[ds.len() - 1].d0);
                }
            }
        }
    } else {
        assert(sorted_by_start(ds.drop_last())) by {
            assert forall|i: int, j: int| 0 <= i < j < ds.drop_last().len()
                implies #[trigger] ds.drop_last()[i].d0 <= #[trigger] ds.drop_last()[j].d0 by {
                assert(ds[i].d0 <= ds[j].d0);
            }
        }
        lemma_insert_sorted_sorted(ds.drop_last(), x);
        lemma_insert_sorted_basic(ds.drop_last(), x);
        let inner = insert_sorted(ds.drop_last(), x);
        let r = inner.push(ds.last());
        assert forall|i: int, j: int| 0 <= i < j < r.len() implies #[trigger] r[i].d0 <= #[trigger] r[j].d0 by {
            if j < inner.len() {
                assert(inner[i].d0 <= inner[j].d0);
            } else {
                // every element of `inner` is an element of `ds` or is `x`,
                // and all of those start at or before `ds.last()`
                assert(inner.contains(inner[i]));
                if ds.drop_last().contains(inner[i]) {
                    let k = choose|k: int| 0 <= k < ds.drop_last().len() && ds.drop_last()[k] == inner[i];
                    assert(ds[k].d0 <= ds[ds.len() - 1].d0);
                } else {
                    assert(inner[i] == x);
                }
            }
        }
    }
}

pub proof fn lemma_sort_diffs_basic(ds: Seq<DiffV>)
    ensures
        sort_diffs(ds).len() == ds.len(),
        sort_diffs(ds).to_multiset() == ds.to_multiset(),
        sorted_by_start(sort_diffs(ds)),
        forall|e: DiffV| #![trigger sort_diffs(ds).contains(e)]
            sort_diffs(ds).contains(e) <==> ds.contains(e),
        forall|e: DiffV| #![trigger ds.contains(e)]
            sort_diffs(ds).contains(e) <==> ds.contains(e),
    decreases ds.len(),
{
    broadcast use vstd::seq_lib::group_to_multiset_ensures;

    if ds.len() == 0 {
        assert(sort_diffs(ds) =~= Seq::<DiffV>::empty());
        assert(forall|e: DiffV| !ds.contains(e));
        assert(forall|e: DiffV| !sort_diffs(ds).contains(e));
    } else {
        lemma_sort_diffs_basic(ds.drop_last());
        lemma_insert_sorted_basic(sort_diffs(ds.drop_last()), ds.last());
        lemma_insert_sorted_sorted(sort_diffs(ds.drop_last()), ds.last());
        assert(ds.drop_last().push(ds.last()) =~= ds);
        assert(ds.drop_last().push(ds.last()).to_multiset() =~= ds.drop_last().to_multiset().insert(ds.last()));
        assert forall|e: DiffV| sort_diffs(ds).contains(e) implies ds.contains(e) by {
            if ds.drop_last().contains(e) {
                let j = choose|j: int| 0 <= j < ds.drop_last().len() && ds.drop_last()[j] == e;
                assert(ds[j] == e);
            } else {
                assert(ds[ds.len() - 1] == e);
            }
        }
        assert forall|e: DiffV| ds.contains(e) implies sort_diffs(ds).contains(e) by {
            let i = choose|i: int| 0 <= i < ds.len() && ds[i] == e;
            if i < ds.len() - 1 {
                assert(ds.drop_last()[i] == e);
            }
        }
    }
}

/// Transfer of well-formedness and disjointness to the sorted batch.
pub proof fn lemma_sort_diffs_wf(ds: Seq<DiffV>, total: int)
    requires
        diffs_wf(ds, total),
    ensures
        diffs_wf(sort_diffs(ds), total),
{
    lemma_sort_diffs_basic(ds);
    let s = sort_diffs(ds);
    assert forall|k: int| 0 <= k < s.len() implies diff_wf(#[trigger] s[k], total) by {
        assert(s.contains(s[k]));
        let j = choose|j: int| 0 <= j < ds.len() && ds[j] == s[k];
        assert(diff_wf(ds[j], total));
    }
}

/// `x` may be placed anywhere relative to the elements of `ds` without
/// creating an overlap.
pub open spec fn compat(ds: Seq<DiffV>, x: DiffV) -> bool {
    forall|e: DiffV| #[trigger] ds.contains(e) ==> ((e.d0 <= x.d0 ==> e.d1 <= x.d0) && (x.d0 <= e.d0 ==> x.d1 <= e.d0))
}

pub proof fn lemma_insert_sorted_disjoint(ds: Seq<DiffV>, x: DiffV)
    requires
        pairwise_disjoint(ds),
        compat(ds, x),
    ensures
        pairwise_disjoint(insert_sorted(ds, x)),
    decreases ds.len(),
{
    lemma_insert_sorted_basic(ds, x);
    let r = insert_sorted(ds, x);
    if ds.len() == 0 {
        assert forall|i: int, j: int|
            0 <= i < r.len() && 0 <= j < r.len() && i != j && #[trigger] r[i].d0 <= #[trigger] r[j].d0
            implies r[i].d1 <= r[j].d0 by {}
    } else if ds.last().d0 <= x.d0 {
        assert forall|i: int, j: int|
            0 <= i < r.len() && 0 <= j < r.len() && i != j && #[trigger] r[i].d0 <= #[trigger] r[j].d0
            implies r[i].d1 <= r[j].d0 by {
            if i < ds.len() && j < ds.len() {
                assert(ds[i].d1 <= ds[j].d0);
            } else if i < ds.len() {
                assert(ds.contains(ds[i]));
            } else {
                assert(ds.contains(ds[j]));
            }
        }
    } else {
        assert(pairwise_disjoint(ds.drop_last())) by {
            assert forall|i: int, j: int|
                0 <= i < ds.drop_last().len() && 0 <= j < ds.drop_last().len() && i != j
                    && #[trigger] ds.drop_last()[i].d0 <= #[trigger] ds.drop_last()[j].d0
                implies ds.drop_last()[i].d1 <= ds.drop_last()[j].d0 by {
                assert(ds[i].d0 <= ds[j].d0);
            }
        }
        assert(compat(ds.drop_last(), x)) by {
            assert forall|e: DiffV| #[trigger] ds.drop_last().contains(e)
                implies ((e.d0 <= x.d0 ==> e.d1 <= x.d0) && (x.d0 <= e.d0 ==> x.d1 <= e.d0)) by {
                let i = choose|i: int| 0 <= i < ds.drop_last().len() && ds.drop_last()[i] == e;
                assert(ds[i] == e);
                assert(ds.contains(e));
            }
        }
        lemma_insert_sorted_disjoint(ds.drop_last(), x);
        lemma_insert_sorted_basic(ds.drop_last(), x);
        let inner = insert_sorted(ds.drop_last(), x);
        assert forall|i: int, j: int|
            0 <= i < r.len() && 0 <= j < r.len() && i != j && #[trigger] r[i].d0 <= #[trigger] r[j].d0
            implies r[i].d1 <= r[j].d0 by {
            let last = ds.last();
            assert(ds.contains(last)) by {
                assert(ds[ds.len() - 1] == last);
            }
            if i < inner.len() && j < inner.len() {
                assert(inner[i].d1 <= inner[j].d0);
            } else if i < inner.len() {
                // r[j] == ds.last(); r[i] is an element of ds or is x
                assert(inner.contains(inner[i]));
                if ds.drop_last().contains(inner[i]) {
                    let k = choose|k: int| 0 <= k < ds.drop_last().len() && ds.drop_last()[k] == inner[i];
                    assert(ds[k] == inner[i]);
                    assert(ds[k].d1 <= ds[ds.len() - 1].d0);
                } else {
                    assert(inner[i] == x);
                }
            } else {
                // r[i] == ds.last()
                assert(inner.contains(inner[j]));
                if ds.drop_last().contains(inner[j]) {
                    let k = choose|k: int| 0 <= k < ds.drop_last().len() && ds.drop_last()[k] == inner[j];
                    assert(ds[k] == inner[j]);
                    assert(ds[ds.len() - 1].d1 <= ds[k].d0);
                } else {
                    assert(inner[j] == x);
                }
            }
        }
    }
}

pub proof fn lemma_sort_diffs_disjoint(ds: Seq<DiffV>)
    requires
        pairwise_disjoint(ds),
    ensures
        pairwise_disjoint(sort_diffs(ds)),
    decreases ds.len(),
{
    if ds.len() == 0 {
    } else {
        let dl = ds.drop_last();
        let last = ds.last();
        assert(pairwise_disjoint(dl)) by {
            assert forall|i: int, j: int|
                0 <= i < dl.len() && 0 <= j < dl.len() && i != j
                    && #[trigger] dl[i].d0 <= #[trigger] dl[j].d0
                implies dl[i].d1 <= dl[j].d0 by {
                assert(ds[i].d0 <= ds[j].d0);
            }
        }
        lemma_sort_diffs_disjoint(dl);
        lemma_sort_diffs_basic(dl);
        assert(compat(sort_diffs(dl), last)) by {
            assert forall|e: DiffV| #[trigger] sort_diffs(dl).contains(e)
                implies ((e.d0 <= last.d0 ==> e.d1 <= last.d0) && (last.d0 <= e.d0 ==> last.d1 <= e.d0)) by {
                assert(dl.contains(e));
                let i = choose|i: int| 0 <= i < dl.len() && dl[i] == e;
                assert(ds[i] == e);
                assert(ds[ds.len() - 1] == last);
                // instances of pairwise disjointness of ds at (i, len-1)
                assert(e.d0 <= last.d0 ==> e.d1 <= last.d0);
                assert(last.d0 <= e.d0 ==> last.d1 <= e.d0);
            }
        }
        lemma_insert_sorted_disjoint(sort_diffs(dl), last);
    }
}

pub proof fn lemma_sorted_disjoint_chained(ds: Seq<DiffV>)
    requires
        sorted_by_start(ds),
        pairwise_disjoint(ds),
    ensures
        chained(ds),
{
    assert forall|k: int| 0 <= k < ds.len() - 1 implies #[trigger] ds[k].d1 <= ds[k + 1].d0 by {
        assert(ds[k].d0 <= ds[k + 1].d0);
    }
}

// ---------------------------------------------------------------------------
// The meaning of a sorted batch: splicing.
// ---------------------------------------------------------------------------

/// Running line-count offset just before diff `m` of a sorted batch is
/// applied: inserted lines minus deleted lines of the first `m` diffs.
pub open spec fn off_at(ds: Seq<DiffV>, m: int) -> int
    decreases m,
{
    if m <= 0 {
        0
    } else {
        off_at(ds, m - 1) + ds[m - 1].ins - (ds[m - 1].d1 - ds[m - 1].d0)
    }
}

/// First pre-diff line not yet settled when diff `m` is reached: the end of
/// the previous diff's deleted range.
pub open spec fn start_at(ds: Seq<DiffV>, m: int) -> int {
    if m <= 0 {
        0
    } else {
        ds[m - 1].d1
    }
}

/// Total number of lines inserted by the first `m` diffs.
pub open spec fn sum_ins_to(ds: Seq<DiffV>, m: int) -> int
    decreases m,
{
    if m <= 0 {
        0
    } else {
        sum_ins_to(ds, m - 1) + ds[m - 1].ins
    }
}

/// Total number of lines inserted by a batch.
pub open spec fn sum_inserts(ds: Seq<DiffV>) -> int {
    sum_ins_to(ds, ds.len() as int)
}

/// `n` lines all of cohort `c`.
pub open spec fn repeat_cohort(n: int, c: u64) -> Seq<u64> {
    Seq::new(if n >= 0 { n as nat } else { 0 }, |i: int| c)
}

/// The spliced tail of the result, from diff `k` of a sorted batch on: what
/// remains of `lines` from the previous delete's end up to diff `k`'s delete
/// start, then diff `k`'s inserted lines, then the rest.
pub open spec fn splice_suffix(lines: Seq<u64>, ds: Seq<DiffV>, k: int) -> Seq<u64>
    decreases ds.len() - k,
{
    if k < 0 || k >= ds.len() {
        lines.subrange(start_at(ds, k), lines.len() as int)
    } else {
        lines.subrange(start_at(ds, k), ds[k].d0) + repeat_cohort(ds[k].ins, ds[k].cohort)
            + splice_suffix(lines, ds, k + 1)
    }
}

/// The meaning of an already sorted batch.
pub open spec fn apply_sorted(lines: Seq<u64>, ds: Seq<DiffV>) -> Seq<u64> {
    splice_suffix(lines, ds, 0)
}

/// The meaning of a batch of line diffs: sort stably by delete start, then
/// splice.  Each diff removes the pre-diff lines `[d0, d1)` and inserts `ins`
/// lines of its cohort in their place.
pub open spec fn apply_diffs(lines: Seq<u64>, ds: Seq<DiffV>) -> Seq<u64> {
    apply_sorted(lines, sort_diffs(ds))
}

pub proof fn lemma_suffix_len(lines: Seq<u64>, ds: Seq<DiffV>, k: int)
    requires
        diffs_wf(ds, lines.len() as int),
        chained(ds),
        0 <= k <= ds.len(),
    ensures
        0 <= start_at(ds, k) <= lines.len(),
        k < ds.len() ==> start_at(ds, k) <= ds[k].d0,
        splice_suffix(lines, ds, k).len()
            == lines.len() - start_at(ds, k) + off_at(ds, ds.len() as int) - off_at(ds, k),
    decreases ds.len() - k,
{
    if k == ds.len() {
        if k > 0 {
            assert(diff_wf(ds[k - 1], lines.len() as int));
        }
        assert(off_at(ds, ds.len() as int) - off_at(ds, k) == 0);
    } else {
        assert(diff_wf(ds[k], lines.len() as int));
        if k > 0 {
            assert(diff_wf(ds[k - 1], lines.len() as int));
            assert(ds[k - 1].d1 <= ds[k].d0);
        }
        lemma_suffix_len(lines, ds, k + 1);
        assert(off_at(ds, k + 1) == off_at(ds, k) + ds[k].ins - (ds[k].d1 - ds[k].d0));
    }
}

/// Where the spliced tail from diff `k` sits inside the whole result: it is
/// the suffix beginning at position `start_at(k) + off_at(k)`.
pub proof fn lemma_suffix_index(lines: Seq<u64>, ds: Seq<DiffV>, k: int)
    requires
        diffs_wf(ds, lines.len() as int),
        chained(ds),
        0 <= k <= ds.len(),
    ensures
        start_at(ds, k) + off_at(ds, k) >= 0,
        apply_sorted(lines, ds).len()
            == start_at(ds, k) + off_at(ds, k) + splice_suffix(lines, ds, k).len(),
        forall|i: int|
            0 <= i < splice_suffix(lines, ds, k).len()
                ==> apply_sorted(lines, ds)[start_at(ds, k) + off_at(ds, k) + i]
                    == #[trigger] splice_suffix(lines, ds, k)[i],
    decreases k,
{
    lemma_suffix_len(lines, ds, k);
    if k <= 0 {
    } else {
        lemma_suffix_index(lines, ds, k - 1);
        lemma_suffix_len(lines, ds, k - 1);
        let seg = lines.subrange(start_at(ds, k - 1), ds[k - 1].d0);
        let rep = repeat_cohort(ds[k - 1].ins, ds[k - 1].cohort);
        assert(diff_wf(ds[k - 1], lines.len() as int));
        assert(splice_suffix(lines, ds, k - 1) == seg + rep + splice_suffix(lines, ds, k));
        let shift = seg.len() + rep.len();
        assert(start_at(ds, k) + off_at(ds, k) == start_at(ds, k - 1) + off_at(ds, k - 1) + shift);
        assert forall|i: int| 0 <= i < splice_suffix(lines, ds, k).len()
            implies apply_sorted(lines, ds)[start_at(ds, k) + off_at(ds, k) + i]
                == #[trigger] splice_suffix(lines, ds, k)[i] by {
            assert((seg + rep + splice_suffix(lines, ds, k))[shift + i]
                == splice_suffix(lines, ds, k)[i]);
            assert(splice_suffix(lines, ds, k - 1)[shift + i] == splice_suffix(lines, ds, k)[i]);
        }
    }
}

/// The three regions contributed by diff `k` of a sorted batch, located inside
/// the whole result: the lines carried over from before its delete start, and
/// the lines it inserts.
pub proof fn lemma_target_segments(lines: Seq<u64>, ds: Seq<DiffV>, k: int)
    requires
        diffs_wf(ds, lines.len() as int),
        chained(ds),
        0 <= k < ds.len(),
    ensures
        forall|t: int|
            start_at(ds, k) <= t < ds[k].d0
                ==> 0 <= t + off_at(ds, k) < apply_sorted(lines, ds).len()
                    && apply_sorted(lines, ds)[t + off_at(ds, k)] == #[trigger] lines[t],
        forall|u: int|
            0 <= u < ds[k].ins
                ==> 0 <= ds[k].d0 + off_at(ds, k) + u < apply_sorted(lines, ds).len()
                    && #[trigger] apply_sorted(lines, ds)[ds[k].d0 + off_at(ds, k) + u]
                        == ds[k].cohort,
{
    lemma_suffix_index(lines, ds, k);
    lemma_suffix_len(lines, ds, k);
    lemma_suffix_len(lines, ds, k + 1);
    let seg = lines.subrange(start_at(ds, k), ds[k].d0);
    let rep = repeat_cohort(ds[k].ins, ds[k].cohort);
    let base = start_at(ds, k) + off_at(ds, k);
    assert(diff_wf(ds[k], lines.len() as int));
    assert(splice_suffix(lines, ds, k) == seg + rep + splice_suffix(lines, ds, k + 1));
    assert forall|t: int| start_at(ds, k) <= t < ds[k].d0
        implies 0 <= t + off_at(ds, k) < apply_sorted(lines, ds).len()
            && apply_sorted(lines, ds)[t + off_at(ds, k)] == #[trigger] lines[t] by {
        let i = t - start_at(ds, k);
        assert((seg + rep + splice_suffix(lines, ds, k + 1))[i] == seg[i]);
        assert(splice_suffix(lines, ds, k)[i] == lines[t]);
        assert(apply_sorted(lines, ds)[base + i] == splice_suffix(lines, ds, k)[i]);
    }
    assert forall|u: int| 0 <= u < ds[k].ins
        implies 0 <= ds[k].d0 + off_at(ds, k) + u < apply_sorted(lines, ds).len()
            && #[trigger] apply_sorted(lines, ds)[ds[k].d0 + off_at(ds, k) + u] == ds[k].cohort by {
        let i = seg.len() + u;
        assert((seg + rep + splice_suffix(lines, ds, k + 1))[i] == rep[u]);
        assert(splice_suffix(lines, ds, k)[i] == ds[k].cohort);
        assert(apply_sorted(lines, ds)[base + i] == splice_suffix(lines, ds, k)[i]);
    }
}

/// The tail of the result after the last diff: the surviving lines from the
/// last delete's end to the end of the file.
pub proof fn lemma_target_tail(lines: Seq<u64>, ds: Seq<DiffV>)
    requires
        diffs_wf(ds, lines.len() as int),
        chained(ds),
    ensures
        apply_sorted(lines, ds).len()
            == lines.len() + off_at(ds, ds.len() as int),
        forall|t: int|
            start_at(ds, ds.len() as int) <= t < lines.len()
                ==> 0 <= t + off_at(ds, ds.len() as int) < apply_sorted(lines, ds).len()
                    && apply_sorted(lines, ds)[t + off_at(ds, ds.len() as int)]
                        == #[trigger] lines[t],
{
    let n = ds.len() as int;
    lemma_suffix_index(lines, ds, n);
    lemma_suffix_len(lines, ds, n);
    assert(splice_suffix(lines, ds, n) == lines.subrange(start_at(ds, n), lines.len() as int));
    assert forall|t: int| start_at(ds, n) <= t < lines.len()
        implies 0 <= t + off_at(ds, n) < apply_sorted(lines, ds).len()
            && apply_sorted(lines, ds)[t + off_at(ds, n)] == #[trigger] lines[t] by {
        let i = t - start_at(ds, n);
        assert(splice_suffix(lines, ds, n)[i] == lines[t]);
        assert(apply_sorted(lines, ds)[start_at(ds, n) + off_at(ds, n) + i]
            == splice_suffix(lines, ds, n)[i]);
    }
}

/// Bounds on the running offset, needed to keep the executable bookkeeping in
/// machine integers: at every point it is at least `-start_at(m)` and at most
/// the total number of inserted lines.
pub proof fn lemma_off_bounds(ds: Seq<DiffV>, total: int, m: int)
    requires
        diffs_wf(ds, total),
        chained(ds),
        0 <= m <= ds.len(),
    ensures
        start_at(ds, m) + off_at(ds, m) >= 0,
        off_at(ds, m) <= sum_ins_to(ds, m),
        sum_ins_to(ds, m) <= sum_inserts(ds),
        sum_ins_to(ds, m) >= 0,
    decreases ds.len() - m + m,
{
    lemma_sum_ins_to_mono(ds, m, ds.len() as int);
    lemma_off_at_props(ds, total, m);
}

proof fn lemma_off_at_props(ds: Seq<DiffV>, total: int, m: int)
    requires
        diffs_wf(ds, total),
        chained(ds),
        0 <= m <= ds.len(),
    ensures
        start_at(ds, m) + off_at(ds, m) >= 0,
        off_at(ds, m) <= sum_ins_to(ds, m),
    decreases m,
{
    if m > 0 {
        lemma_off_at_props(ds, total, m - 1);
        assert(diff_wf(ds[m - 1], total));
        if m >= 2 {
            assert(ds[m - 2].d1 <= ds[m - 1].d0);
        }
    }
}

pub proof fn lemma_sum_ins_to_mono(ds: Seq<DiffV>, a: int, b: int)
    requires
        0 <= a <= b <= ds.len(),
        forall|k: int| 0 <= k < ds.len() ==> #[trigger] ds[k].ins >= 0,
    ensures
        sum_ins_to(ds, a) <= sum_ins_to(ds, b),
        sum_ins_to(ds, a) >= 0,
    decreases b,
{
    if b > a {
        lemma_sum_ins_to_mono(ds, a, b - 1);
    } else if a > 0 {
        lemma_sum_ins_to_mono(ds, a - 1, a - 1);
    }
}

/// Stable sorting does not change the number of inserted lines.
pub proof fn lemma_sort_sum_inserts(ds: Seq<DiffV>)
    ensures
        sum_inserts(sort_diffs(ds)) == sum_inserts(ds),
    decreases ds.len(),
{
    if ds.len() == 0 {
    } else {
        let dl = ds.drop_last();
        lemma_sort_sum_inserts(dl);
        lemma_sort_diffs_basic(dl);
        lemma_insert_sorted_sum(sort_diffs(dl), ds.last());
        assert(sum_ins_to(ds, ds.len() as int)
            == sum_ins_to(ds, ds.len() - 1) + ds.last().ins);
        lemma_sum_ins_to_prefix(ds, ds.len() - 1);
    }
}

proof fn lemma_insert_sorted_sum(ds: Seq<DiffV>, x: DiffV)
    ensures
        sum_inserts(insert_sorted(ds, x)) == sum_inserts(ds) + x.ins,
    decreases ds.len(),
{
    lemma_insert_sorted_basic(ds, x);
    if ds.len() == 0 {
        assert(sum_inserts(seq![x]) == sum_ins_to(seq![x], 0) + x.ins);
    } else if ds.last().d0 <= x.d0 {
        assert(sum_inserts(ds.push(x)) == sum_ins_to(ds.push(x), ds.len() as int) + x.ins);
        lemma_sum_ins_to_same_prefix(ds.push(x), ds, ds.len() as int);
    } else {
        lemma_insert_sorted_sum(ds.drop_last(), x);
        let inner = insert_sorted(ds.drop_last(), x);
        lemma_insert_sorted_basic(ds.drop_last(), x);
        assert(sum_inserts(inner.push(ds.last()))
            == sum_ins_to(inner.push(ds.last()), inner.len() as int) + ds.last().ins);
        lemma_sum_ins_to_same_prefix(inner.push(ds.last()), inner, inner.len() as int);
        lemma_sum_ins_to_prefix(ds, ds.len() - 1);
    }
}

/// `sum_ins_to` only looks at the first `m` elements.
proof fn lemma_sum_ins_to_same_prefix(a: Seq<DiffV>, b: Seq<DiffV>, m: int)
    requires
        0 <= m <= a.len(),
        m <= b.len(),
        forall|k: int| 0 <= k < m ==> a[k] == b[k],
    ensures
        sum_ins_to(a, m) == sum_ins_to(b, m),
    decreases m,
{
    if m > 0 {
        lemma_sum_ins_to_same_prefix(a, b, m - 1);
    }
}

proof fn lemma_sum_ins_to_prefix(ds: Seq<DiffV>, m: int)
    requires
        0 <= m <= ds.len(),
        m <= ds.drop_last().len() || m <= ds.len() - 1,
    ensures
        sum_ins_to(ds, m) == sum_ins_to(ds.drop_last(), m),
{
    lemma_sum_ins_to_same_prefix(ds, ds.drop_last(), m);
}

/// The delete of an earlier diff of a sorted disjoint batch ends at or before
/// the delete of any later diff starts.
pub proof fn lemma_chain_le(ds: Seq<DiffV>, total: int, j: int, k: int)
    requires
        diffs_wf(ds, total),
        chained(ds),
        0 <= j < k < ds.len(),
    ensures
        ds[j].d1 <= ds[k].d0,
    decreases k - j,
{
    if j + 1 == k {
        assert(ds[j].d1 <= ds[j + 1].d0);
    } else {
        lemma_chain_le(ds, total, j + 1, k);
        assert(ds[j].d1 <= ds[j + 1].d0);
        assert(diff_wf(ds[j + 1], total));
    }
}

/// The acceptance condition checked on a batch arriving from outside, for a
/// file of `total` lines: every diff well formed, the deletes chained in the
/// given order (a diff may share its start with its successor only when the
/// successor deletes nothing), and the inserted lines small enough that the
/// new file still fits in line numbers.
pub open spec fn batch_accepted(ds: Seq<DiffV>, total: int) -> bool {
    &&& diffs_wf(ds, total)
    &&& chained(ds)
    &&& forall|k: int|
        0 <= k < ds.len() - 1 && (#[trigger] ds[k]).d0 == ds[k + 1].d0
            ==> ds[k + 1].d1 == ds[k + 1].d0
    &&& total + sum_inserts(ds) <= u32::MAX
}

/// An accepted batch meets `apply_line_diffs`' preconditions.
pub proof fn lemma_batch_accepted_ok(ds: Seq<DiffV>, total: int)
    requires
        batch_accepted(ds, total),
    ensures
        pairwise_disjoint(ds),
        sorted_by_start(ds),
{
    lemma_chained_batch_disjoint(ds, total);
}

/// A batch whose diffs chain in the given order — each delete ending at or
/// before the next one starts, and a diff sharing its start with its
/// successor only when the successor deletes nothing — has pairwise disjoint
/// deletes.
pub proof fn lemma_chained_batch_disjoint(ds: Seq<DiffV>, total: int)
    requires
        diffs_wf(ds, total),
        chained(ds),
        forall|k: int|
            0 <= k < ds.len() - 1 && (#[trigger] ds[k]).d0 == ds[k + 1].d0
                ==> ds[k + 1].d1 == ds[k + 1].d0,
    ensures
        pairwise_disjoint(ds),
        sorted_by_start(ds),
{
    assert forall|i: int, j: int| 0 <= i < j < ds.len() implies
        (#[trigger] ds[i]).d0 <= (#[trigger] ds[j]).d0 by {
        lemma_chain_le(ds, total, i, j);
        assert(diff_wf(ds[i], total));
    }
    assert forall|i: int, j: int|
        0 <= i < ds.len() && 0 <= j < ds.len() && i != j && #[trigger] ds[i].d0 <= #[trigger] ds[j].d0
        implies ds[i].d1 <= ds[j].d0 by {
        if i < j {
            lemma_chain_le(ds, total, i, j);
        } else {
            // j < i with equal starts: every diff of the tied block deletes
            // nothing
            assert(ds[j].d0 <= ds[i].d0);
            assert(ds[i].d0 == ds[j].d0);
            assert(ds[i - 1].d0 == ds[i].d0) by {
                assert(ds[j].d0 <= ds[i - 1].d0);
                assert(ds[i - 1].d0 <= ds[i].d0);
            }
            assert(ds[i].d1 == ds[i].d0);
        }
    }
}

/// One diff applied to the whole file: the reference splice.
pub open spec fn splice_one(lines: Seq<u64>, d: DiffV) -> Seq<u64> {
    lines.subrange(0, d.d0) + repeat_cohort(d.ins, d.cohort)
        + lines.subrange(d.d1, lines.len() as int)
}

/// Reference semantics of a sorted batch: apply the diffs one at a time, from
/// the bottom of the file upwards, so that each diff's pre-diff line numbers
/// are still valid when it is applied.
pub open spec fn naive_apply_sorted(lines: Seq<u64>, ds: Seq<DiffV>) -> Seq<u64>
    decreases ds.len(),
{
    if ds.len() == 0 {
        lines
    } else {
        naive_apply_sorted(splice_one(lines, ds.last()), ds.drop_last())
    }
}

proof fn lemma_suffix_drop_last(lines: Seq<u64>, ds: Seq<DiffV>, k: int)
    requires
        diffs_wf(ds, lines.len() as int),
        sorted_by_start(ds),
        chained(ds),
        ds.len() > 0,
        0 <= k <= ds.len() - 1,
    ensures
        splice_suffix(lines, ds, k)
            == splice_suffix(splice_one(lines, ds.last()), ds.drop_last(), k),
    decreases ds.len() - k,
{
    let n = ds.len() as int;
    let last = ds[n - 1];
    let l2 = splice_one(lines, last);
    let dl = ds.drop_last();
    assert(diff_wf(last, lines.len() as int));
    assert(l2.len() == last.d0 + last.ins + (lines.len() - last.d1));
    assert(start_at(dl, k) == start_at(ds, k)) by {
        if k > 0 {
            assert(dl[k - 1] == ds[k - 1]);
        }
    }
    lemma_suffix_len(lines, ds, k);
    if k == n - 1 {
        // the tail of the shorter batch is the spliced remainder itself
        assert(splice_suffix(l2, dl, k) == l2.subrange(start_at(dl, k), l2.len() as int));
        assert(splice_suffix(lines, ds, k)
            == lines.subrange(start_at(ds, k), last.d0) + repeat_cohort(last.ins, last.cohort)
                + lines.subrange(last.d1, lines.len() as int)) by {
            assert(splice_suffix(lines, ds, n)
                =~= lines.subrange(last.d1, lines.len() as int));
        }
        assert(l2.subrange(start_at(dl, k), l2.len() as int)
            =~= lines.subrange(start_at(ds, k), last.d0) + repeat_cohort(last.ins, last.cohort)
                + lines.subrange(last.d1, lines.len() as int)) by {
            let st = start_at(ds, k);
            assert(0 <= st <= last.d0);
            assert forall|i: int| 0 <= i < l2.len() - st implies
                l2.subrange(st, l2.len() as int)[i]
                    == (lines.subrange(st, last.d0) + repeat_cohort(last.ins, last.cohort)
                        + lines.subrange(last.d1, lines.len() as int))[i] by {
                assert(l2.subrange(st, l2.len() as int)[i] == l2[st + i]);
                if st + i < last.d0 {
                    assert(l2[st + i] == lines.subrange(0, last.d0)[st + i]);
                } else if st + i < last.d0 + last.ins {
                    assert(l2[st + i] == repeat_cohort(last.ins, last.cohort)[st + i - last.d0]);
                } else {
                    assert(l2[st + i]
                        == lines.subrange(last.d1, lines.len() as int)[st + i - last.d0 - last.ins]);
                }
            }
        }
    } else {
        lemma_suffix_drop_last(lines, ds, k + 1);
        assert(dl[k] == ds[k]);
        lemma_chain_le(ds, lines.len() as int, k, n - 1);
        assert(diff_wf(ds[k], lines.len() as int));
        // below the last diff's delete start the spliced file keeps the
        // original lines
        assert(lines.subrange(start_at(ds, k), ds[k].d0)
            =~= l2.subrange(start_at(dl, k), dl[k].d0)) by {
            assert forall|i: int| 0 <= i < ds[k].d0 - start_at(ds, k) implies
                lines.subrange(start_at(ds, k), ds[k].d0)[i]
                    == l2.subrange(start_at(dl, k), dl[k].d0)[i] by {
                let p = start_at(ds, k) + i;
                assert(p < ds[k].d0 <= last.d0);
                assert(l2[p] == lines.subrange(0, last.d0)[p]);
            }
        }
        assert(splice_suffix(lines, ds, k)
            == lines.subrange(start_at(ds, k), ds[k].d0)
                + repeat_cohort(ds[k].ins, ds[k].cohort) + splice_suffix(lines, ds, k + 1));
        assert(splice_suffix(l2, dl, k)
            == l2.subrange(start_at(dl, k), dl[k].d0)
                + repeat_cohort(dl[k].ins, dl[k].cohort) + splice_suffix(l2, dl, k + 1));
    }
}

/// Law: the splice semantics of a sorted disjoint batch agrees with the
/// reference that applies the diffs one at a time from the bottom of the file
/// upwards.
pub proof fn lemma_apply_sorted_matches_naive(lines: Seq<u64>, ds: Seq<DiffV>)
    requires
        diffs_wf(ds, lines.len() as int),
        sorted_by_start(ds),
        chained(ds),
    ensures
        apply_sorted(lines, ds) == naive_apply_sorted(lines, ds),
    decreases ds.len(),
{
    if ds.len() == 0 {
        assert(apply_sorted(lines, ds) =~= lines);
    } else {
        let n = ds.len() as int;
        let last = ds[n - 1];
        let l2 = splice_one(lines, last);
        let dl = ds.drop_last();
        assert(diff_wf(last, lines.len() as int));
        assert(diffs_wf(dl, l2.len() as int)) by {
            assert forall|k: int| 0 <= k < dl.len() implies
                diff_wf(#[trigger] dl[k], l2.len() as int) by {
                assert(dl[k] == ds[k]);
                assert(diff_wf(ds[k], lines.len() as int));
                if k < n - 1 {
                    lemma_chain_le(ds, lines.len() as int, k, n - 1);
                }
                assert(l2.len() == last.d0 + last.ins + (lines.len() - last.d1));
            }
        }
        assert(sorted_by_start(dl)) by {
            assert forall|a: int, b: int| 0 <= a < b < dl.len() implies
                (#[trigger] dl[a]).d0 <= (#[trigger] dl[b]).d0 by {
                assert(ds[a].d0 <= ds[b].d0);
            }
        }
        assert(chained(dl)) by {
            assert forall|k: int| 0 <= k < dl.len() - 1 implies
                (#[trigger] dl[k]).d1 <= dl[k + 1].d0 by {
                assert(ds[k].d1 <= ds[k + 1].d0);
            }
        }
        lemma_apply_sorted_matches_naive(l2, dl);
        lemma_suffix_drop_last(lines, ds, 0);
    }
}

/// Law: the meaning of a batch agrees with the naive reference — sort the
/// batch stably by delete start, then apply the diffs one at a time from the
/// bottom of the file upwards.
pub proof fn lemma_apply_diffs_matches_naive(lines: Seq<u64>, ds: Seq<DiffV>)
    requires
        diffs_wf(ds, lines.len() as int),
        pairwise_disjoint(ds),
    ensures
        apply_diffs(lines, ds) == naive_apply_sorted(lines, sort_diffs(ds)),
{
    lemma_sort_diffs_basic(ds);
    lemma_sort_diffs_wf(ds, lines.len() as int);
    lemma_sort_diffs_disjoint(ds);
    lemma_sorted_disjoint_chained(sort_diffs(ds));
    lemma_apply_sorted_matches_naive(lines, sort_diffs(ds));
}

/// Law: an empty batch changes nothing.
pub proof fn lemma_apply_diffs_empty(lines: Seq<u64>)
    ensures
        apply_diffs(lines, Seq::<DiffV>::empty()) == lines,
{
    assert(sort_diffs(Seq::<DiffV>::empty()) =~= Seq::<DiffV>::empty());
    assert(apply_sorted(lines, Seq::<DiffV>::empty()) =~= lines);
}

/// Two batches sorted by start that hold the same diffs, all with distinct
/// delete starts, are the same batch.
proof fn lemma_sorted_unique_starts(a: Seq<DiffV>, b: Seq<DiffV>)
    requires
        sorted_by_start(a),
        sorted_by_start(b),
        a.to_multiset() == b.to_multiset(),
        forall|i: int, j: int|
            0 <= i < a.len() && 0 <= j < a.len() && i != j
                ==> (#[trigger] a[i]).d0 != (#[trigger] a[j]).d0,
    ensures
        a == b,
    decreases a.len(),
{
    broadcast use vstd::seq_lib::group_to_multiset_ensures;

    assert(a.len() == b.len()) by {
        assert(a.to_multiset().len() == a.len());
        assert(b.to_multiset().len() == b.len());
    }
    if a.len() == 0 {
        assert(a =~= b);
    } else {
        // the first elements agree: each batch's first element starts no
        // later than any of its elements, and the two batches hold the same
        // elements
        assert(b.to_multiset().contains(b[0]));
        assert(a.to_multiset().contains(b[0]));
        assert(a.contains(b[0]));
        let i = choose|i: int| 0 <= i < a.len() && a[i] == b[0];
        assert(b.to_multiset().contains(a[0]));
        assert(b.contains(a[0]));
        let j = choose|j: int| 0 <= j < b.len() && b[j] == a[0];
        assert(a[0].d0 <= a[i].d0);
        assert(b[0].d0 <= b[j].d0);
        assert(a[0].d0 == b[0].d0);
        assert(i == 0) by {
            if i != 0 {
                assert(a[0].d0 != a[i].d0);
                assert(a[0].d0 <= a[i].d0);
                assert(a[i].d0 == b[0].d0);
                assert(b[0].d0 <= b[j].d0);
                assert(b[j] == a[0]);
            }
        }
        assert(a[0] == b[0]);
        let a1 = a.drop_first();
        let b1 = b.drop_first();
        assert(a1.to_multiset() =~= a.to_multiset().remove(a[0])) by {
            assert(a.remove(0) =~= a1);
        }
        assert(b1.to_multiset() =~= b.to_multiset().remove(b[0])) by {
            assert(b.remove(0) =~= b1);
        }
        assert(sorted_by_start(a1)) by {
            assert forall|x: int, y: int| 0 <= x < y < a1.len() implies
                (#[trigger] a1[x]).d0 <= (#[trigger] a1[y]).d0 by {
                assert(a[x + 1].d0 <= a[y + 1].d0);
            }
        }
        assert(sorted_by_start(b1)) by {
            assert forall|x: int, y: int| 0 <= x < y < b1.len() implies
                (#[trigger] b1[x]).d0 <= (#[trigger] b1[y]).d0 by {
                assert(b[x + 1].d0 <= b[y + 1].d0);
            }
        }
        assert(forall|x: int, y: int|
            0 <= x < a1.len() && 0 <= y < a1.len() && x != y
                ==> (#[trigger] a1[x]).d0 != (#[trigger] a1[y]).d0) by {
            assert forall|x: int, y: int|
                0 <= x < a1.len() && 0 <= y < a1.len() && x != y implies
                (#[trigger] a1[x]).d0 != (#[trigger] a1[y]).d0 by {
                assert(a[x + 1].d0 != a[y + 1].d0);
            }
        }
        lemma_sorted_unique_starts(a1, b1);
        assert(a =~= b) by {
            assert forall|k: int| 0 <= k < a.len() implies a[k] == b[k] by {
                if k > 0 {
                    assert(a1[k - 1] == b1[k - 1]);
                }
            }
        }
    }
}

/// Law: on a batch whose delete starts are pairwise distinct, the order in
/// which the diffs are given does not matter.
pub proof fn lemma_apply_diffs_permutation(lines: Seq<u64>, a: Seq<DiffV>, b: Seq<DiffV>)
    requires
        a.to_multiset() == b.to_multiset(),
        forall|i: int, j: int|
            0 <= i < a.len() && 0 <= j < a.len() && i != j
                ==> (#[trigger] a[i]).d0 != (#[trigger] a[j]).d0,
    ensures
        apply_diffs(lines, a) == apply_diffs(lines, b),
{
    broadcast use vstd::seq_lib::group_to_multiset_ensures;

    lemma_sort_diffs_basic(a);
    lemma_sort_diffs_basic(b);
    let sa = sort_diffs(a);
    assert(forall|i: int, j: int|
        0 <= i < sa.len() && 0 <= j < sa.len() && i != j
            ==> (#[trigger] sa[i]).d0 != (#[trigger] sa[j]).d0) by {
        assert forall|i: int, j: int|
            0 <= i < sa.len() && 0 <= j < sa.len() && i != j implies
            (#[trigger] sa[i]).d0 != (#[trigger] sa[j]).d0 by {
            if sa[i].d0 == sa[j].d0 {
                if sa[i] == sa[j] {
                    // the same diff twice: its multiplicity in `a` is at
                    // least two, so it sits at two distinct positions of `a`
                    lemma_count_two_positions(sa, i, j);
                    lemma_two_positions_from_count(a, sa[i]);
                } else {
                    assert(sa.contains(sa[i]));
                    assert(sa.contains(sa[j]));
                    assert(a.contains(sa[i]));
                    assert(a.contains(sa[j]));
                    let x = choose|x: int| 0 <= x < a.len() && a[x] == sa[i];
                    let y = choose|y: int| 0 <= y < a.len() && a[y] == sa[j];
                    assert(x != y);
                    assert(a[x].d0 != a[y].d0);
                }
            }
        }
    }
    lemma_sorted_unique_starts(sa, sort_diffs(b));
}

/// Equal values at two distinct positions give a multiset count of at least
/// two.
proof fn lemma_count_two_positions(s: Seq<DiffV>, i: int, j: int)
    requires
        0 <= i < s.len(),
        0 <= j < s.len(),
        i != j,
        s[i] == s[j],
    ensures
        s.to_multiset().count(s[i]) >= 2,
{
    broadcast use vstd::seq_lib::group_to_multiset_ensures;

    let x = s[i];
    let s1 = s.remove(i);
    assert(s1.to_multiset() =~= s.to_multiset().remove(x));
    if j < i {
        assert(s1[j] == x);
        assert(s1.contains(x));
    } else {
        assert(s1[j - 1] == x);
        assert(s1.contains(x));
    }
    assert(s1.to_multiset().count(x) >= 1);
    assert(s.to_multiset().count(x) == s1.to_multiset().count(x) + 1);
}

/// A multiset count of at least two gives two distinct positions with the
/// value.
proof fn lemma_two_positions_from_count(s: Seq<DiffV>, x: DiffV)
    requires
        s.to_multiset().count(x) >= 2,
    ensures
        exists|i: int, j: int| #![trigger s[i], s[j]]
            0 <= i < s.len() && 0 <= j < s.len() && i != j && s[i] == x && s[j] == x,
{
    broadcast use vstd::seq_lib::group_to_multiset_ensures;

    assert(s.to_multiset().contains(x));
    assert(s.contains(x));
    let i = choose|i: int| 0 <= i < s.len() && s[i] == x;
    let s1 = s.remove(i);
    assert(s1.to_multiset() =~= s.to_multiset().remove(x));
    assert(s1.to_multiset().count(x) >= 1);
    assert(s1.contains(x));
    let j1 = choose|j1: int| 0 <= j1 < s1.len() && s1[j1] == x;
    let j = if j1 < i { j1 } else { j1 + 1 };
    assert(s[j] == x) by {
        if j1 < i {
            assert(s1[j1] == s[j1]);
        } else {
            assert(s1[j1] == s[j1 + 1]);
        }
    }
    assert(0 <= i < s.len() && 0 <= j < s.len() && i != j && s[i] == x && s[j] == x);
}

/// Stable insertion into a sorted batch places the new element at the
/// boundary position `j`: after every element starting at or before it,
/// before every element starting strictly after it.
pub proof fn lemma_insert_sorted_at(ds: Seq<DiffV>, x: DiffV, j: int)
    requires
        sorted_by_start(ds),
        0 <= j <= ds.len(),
        j > 0 ==> ds[j - 1].d0 <= x.d0,
        j < ds.len() ==> x.d0 < ds[j].d0,
    ensures
        insert_sorted(ds, x) == ds.subrange(0, j) + seq![x] + ds.subrange(j, ds.len() as int),
    decreases ds.len(),
{
    if ds.len() == 0 {
        assert(insert_sorted(ds, x) =~= ds.subrange(0, 0) + seq![x] + ds.subrange(0, 0));
    } else if ds.last().d0 <= x.d0 {
        assert(j == ds.len()) by {
            if j < ds.len() {
                assert(ds[j].d0 <= ds[ds.len() - 1].d0) by {
                    if j < ds.len() - 1 {
                        assert(sorted_by_start(ds));
                    }
                }
            }
        }
        assert(ds.push(x) =~= ds.subrange(0, j) + seq![x] + ds.subrange(j, ds.len() as int));
    } else {
        assert(j < ds.len()) by {
            if j == ds.len() {
                assert(ds[j - 1].d0 <= x.d0);
            }
        }
        let dl = ds.drop_last();
        assert(sorted_by_start(dl)) by {
            assert forall|a: int, b: int| 0 <= a < b < dl.len()
                implies #[trigger] dl[a].d0 <= #[trigger] dl[b].d0 by {
                assert(ds[a].d0 <= ds[b].d0);
            }
        }
        assert(j < dl.len() ==> x.d0 < dl[j].d0) by {
            if j < dl.len() {
                assert(dl[j] == ds[j]);
            }
        }
        if j > 0 {
            assert(dl[j - 1] == ds[j - 1]);
        }
        lemma_insert_sorted_at(dl, x, j);
        assert(insert_sorted(ds, x)
            =~= ds.subrange(0, j) + seq![x] + ds.subrange(j, ds.len() as int)) by {
            assert(insert_sorted(ds, x) == insert_sorted(dl, x).push(ds.last()));
            assert(insert_sorted(dl, x) == dl.subrange(0, j) + seq![x] + dl.subrange(j, dl.len() as int));
            assert forall|k: int| 0 <= k < j implies dl.subrange(0, j)[k] == ds.subrange(0, j)[k] by {
                assert(dl[k] == ds[k]);
            }
        }
    }
}

/// Sort a batch of executable diff tuples stably by delete start.
pub(crate) fn sort_line_diffs(diffs: &mut Vec<(Range<u32>, Range<u32>, u64)>)
    ensures
        diff_views(final(diffs)@) == sort_diffs(diff_views(old(diffs)@)),
        final(diffs)@.len() == old(diffs)@.len(),
{
    let ghost orig = old(diffs)@;
    let n = diffs.len();
    if n == 0 {
        proof {
            assert(diff_views(diffs@) =~= sort_diffs(diff_views(orig)));
        }
        return;
    }
    proof {
        let s1 = diff_views(orig.take(1));
        assert(s1.len() == 1);
        assert(s1.drop_last() =~= Seq::<DiffV>::empty());
        assert(sort_diffs(s1) == insert_sorted(sort_diffs(s1.drop_last()), s1.last()));
        assert(diff_views(diffs@.take(1)) =~= sort_diffs(diff_views(orig.take(1))));
        lemma_sort_diffs_basic(diff_views(orig.take(1)));
    }
    let mut i: usize = 1;
    while i < n
        invariant
            n == diffs@.len(),
            orig.len() == n,
            1 <= i <= n,
            forall|k: int| i <= k < n ==> diffs@[k] == orig[k],
            diff_views(diffs@.take(i as int)) == sort_diffs(diff_views(orig.take(i as int))),
            sorted_by_start(diff_views(diffs@.take(i as int))),
        decreases n - i,
    {
        let ghost cur = diffs@;
        let ghost views_p = diff_views(cur.take(i as int));
        let x = diffs.remove(i);
        let ghost rem = diffs@;
        proof {
            assert(x == orig[i as int]);
            assert forall|k: int| 0 <= k < i implies rem[k] == cur[k] by {}
        }
        let x_start = x.0.start;
        let mut j: usize = i;
        while j > 0 && diffs[j - 1].0.start > x_start
            invariant
                j <= i,
                i < n,
                rem == diffs@,
                rem.len() == n - 1,
                forall|k: int| 0 <= k < i ==> rem[k] == cur[k],
                forall|k: int| j <= k < i ==> (#[trigger] rem[k]).0.start > x_start,
            decreases j,
        {
            j = j - 1;
        }
        let ghost jj = j as int;
        diffs.insert(j, x);
        proof {
            let fin = diffs@;
            assert(fin == rem.insert(jj, x));
            let xv = dv(x);
            assert(xv.d0 == x_start as int);
            assert(jj > 0 ==> views_p[jj - 1].d0 <= xv.d0) by {
                if jj > 0 {
                    assert(rem[jj - 1] == cur[jj - 1]);
                    assert(views_p[jj - 1] == dv(cur[jj - 1]));
                }
            }
            assert(jj < i ==> xv.d0 < views_p[jj].d0) by {
                if jj < i {
                    assert(rem[jj].0.start > x_start);
                    assert(views_p[jj] == dv(cur[jj]));
                }
            }
            lemma_insert_sorted_at(views_p, xv, jj);
            lemma_insert_sorted_sorted(views_p, xv);
            lemma_insert_sorted_basic(views_p, xv);
            // the new prefix of length i+1 is exactly the stable insertion
            assert(diff_views(fin.take(i + 1))
                =~= views_p.subrange(0, jj) + seq![xv] + views_p.subrange(jj, i as int)) by {
                assert forall|k: int| 0 <= k < i + 1 implies
                    diff_views(fin.take(i + 1))[k]
                        == (views_p.subrange(0, jj) + seq![xv] + views_p.subrange(jj, i as int))[k] by {
                    if k < jj {
                        assert(fin[k] == rem[k]);
                        assert(rem[k] == cur[k]);
                    } else if k == jj {
                        assert(fin[k] == x);
                    } else {
                        assert(fin[k] == rem[k - 1]);
                        assert(rem[k - 1] == cur[k - 1]);
                    }
                }
            }
            // and the sorted spec of the one-longer original prefix unfolds to
            // the same insertion
            let s_next = diff_views(orig.take(i + 1));
            assert(s_next.drop_last() =~= diff_views(orig.take(i as int)));
            assert(s_next.last() == dv(orig[i as int]));
            assert(sort_diffs(s_next) == insert_sorted(sort_diffs(s_next.drop_last()), s_next.last()));
            assert(sort_diffs(s_next.drop_last()) == views_p);
            assert(s_next.last() == xv);
            assert(diff_views(fin.take(i + 1)) == sort_diffs(diff_views(orig.take(i + 1))));
            assert forall|k: int| i + 1 <= k < n implies fin[k] == orig[k] by {
                assert(fin[k] == rem[k - 1]);
                assert(rem[k - 1] == cur[k]);
            }
        }
        i = i + 1;
    }
    proof {
        assert(diffs@.take(n as int) =~= diffs@);
        assert(orig.take(n as int) =~= orig);
    }
}

} // verus!
