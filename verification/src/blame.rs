//! Per-file run-length cohort map.
//!
//! A `FileBlame` records, for every line of one file, the cohort that
//! introduced it.  The lines are kept run-length encoded: an ordered list of
//! change points `(start_line, cohort)`, where each run extends to the next
//! change point or, for the last one, to `total_lines`.  The mathematical
//! value of a `FileBlame` (its view) is the fully expanded sequence with one
//! cohort per line.

use vstd::prelude::*;
use core::ops::Range;
use crate::diffs;

verus! {

/// Unsigned 32-bit line index.
pub type LineNumber = u32;

/// Opaque comparable identifier of the commit that introduced a line; in the
/// pipeline it is the index of a sampled commit in the chronological list.
pub type CohortKey = u64;

/// A batch of line diffs: (delete range, insert range, cohort), all ranges in
/// pre-diff line numbers.
pub type LineDiffs = Vec<(Range<LineNumber>, Range<LineNumber>, CohortKey)>;

/// The cohort governing line `i` under change points `cps`: the cohort of the
/// last change point at or before `i` (or an arbitrary default when there is
/// none, which well-formed blames rule out).
pub open spec fn cohort_at(cps: Seq<(LineNumber, CohortKey)>, i: int) -> CohortKey
    decreases cps.len(),
{
    if cps.len() == 0 {
        0
    } else if cps.last().0 <= i {
        cps.last().1
    } else {
        cohort_at(cps.drop_last(), i)
    }
}

/// The per-line expansion of a run-length encoding.
pub open spec fn expand(cps: Seq<(LineNumber, CohortKey)>, total: int) -> Seq<u64> {
    Seq::new(if total >= 0 { total as nat } else { 0 }, |i: int| cohort_at(cps, i))
}

/// Structural well-formedness of a change-point list for a file of `total`
/// lines: keys strictly increasing and below `total`, the first key 0, and no
/// change points at all in an empty file.
pub open spec fn cps_ok(cps: Seq<(LineNumber, CohortKey)>, total: int) -> bool {
    &&& forall|i: int, j: int| 0 <= i < j < cps.len() ==> (#[trigger] cps[i]).0 < (#[trigger] cps[j]).0
    &&& forall|k: int| 0 <= k < cps.len() ==> (#[trigger] cps[k]).0 < total
    &&& total > 0 ==> cps.len() > 0 && cps[0].0 == 0
    &&& total <= 0 ==> cps.len() == 0
}

/// No two adjacent runs share a cohort.
pub open spec fn cps_compact(cps: Seq<(LineNumber, CohortKey)>) -> bool {
    forall|k: int| 0 < k < cps.len() ==> (#[trigger] cps[k]).1 != cps[k - 1].1
}

/// Number of lines of `lines` attributed to cohort `c`.
pub open spec fn count_in(lines: Seq<u64>, c: u64) -> int
    decreases lines.len(),
{
    if lines.len() == 0 {
        0
    } else {
        count_in(lines.drop_last(), c) + if lines.last() == c { 1int } else { 0int }
    }
}

/// The line count recorded for cohort `c`, or 0 when `c` has no entry.
pub open spec fn stats_lookup(stats: Seq<(CohortKey, u64)>, c: u64) -> int
    decreases stats.len(),
{
    if stats.len() == 0 {
        0
    } else if stats.last().0 == c {
        stats.last().1 as int
    } else {
        stats_lookup(stats.drop_last(), c)
    }
}

/// A complete per-cohort tally of `lines`: unique keys, only counted cohorts
/// listed, and every cohort's entry equal to its number of lines.
pub open spec fn stats_complete(stats: Seq<(CohortKey, u64)>, lines: Seq<u64>) -> bool {
    &&& forall|k1: int, k2: int|
        0 <= k1 < k2 < stats.len() ==> (#[trigger] stats[k1]).0 != (#[trigger] stats[k2]).0
    &&& forall|k: int| 0 <= k < stats.len() ==> (#[trigger] stats[k]).1 > 0
    &&& forall|c: u64| #[trigger] stats_lookup(stats, c) == count_in(lines, c)
}

/// Number of maximal runs of equal adjacent values.
pub open spec fn runs(lines: Seq<u64>) -> int
    decreases lines.len(),
{
    if lines.len() == 0 {
        0
    } else if lines.len() == 1 {
        1
    } else {
        runs(lines.drop_last()) + if lines[lines.len() - 1] != lines[lines.len() - 2] {
            1int
        } else {
            0int
        }
    }
}

// ---------------------------------------------------------------------------
// Lemmas about cohort_at / expand / count_in.
// ---------------------------------------------------------------------------

/// `cohort_at` is decided by the change point whose run covers `i`.
pub proof fn lemma_cohort_at_run(cps: Seq<(LineNumber, CohortKey)>, k: int, i: int)
    requires
        forall|a: int, b: int| 0 <= a < b < cps.len() ==> (#[trigger] cps[a]).0 < (#[trigger] cps[b]).0,
        0 <= k < cps.len(),
        cps[k].0 <= i,
        k + 1 < cps.len() ==> i < cps[k + 1].0,
    ensures
        cohort_at(cps, i) == cps[k].1,
    decreases cps.len(),
{
    if k == cps.len() - 1 {
        assert(cps.last().0 <= i);
    } else {
        assert(cps[k + 1].0 <= cps[cps.len() - 1].0);
        assert(cps.last().0 > i);
        assert(cps.drop_last()[k] == cps[k]);
        if k + 1 < cps.len() - 1 {
            assert(cps.drop_last()[k + 1] == cps[k + 1]);
        }
        lemma_cohort_at_run(cps.drop_last(), k, i);
    }
}

/// Below every change point the governing cohort is the recursion's default.
pub proof fn lemma_cohort_at_below(cps: Seq<(LineNumber, CohortKey)>, i: int)
    requires
        forall|k: int| 0 <= k < cps.len() ==> i < (#[trigger] cps[k]).0,
    ensures
        cohort_at(cps, i) == 0u64,
    decreases cps.len(),
{
    if cps.len() > 0 {
        lemma_cohort_at_below(cps.drop_last(), i);
    }
}

/// Pushing a change point at or after every existing key only changes the
/// governing cohorts from its position on.
pub proof fn lemma_cohort_at_push(cps: Seq<(LineNumber, CohortKey)>, pos: LineNumber, c: CohortKey, i: int)
    requires
        cps.len() > 0 ==> cps.last().0 <= pos,
    ensures
        i >= pos ==> cohort_at(cps.push((pos, c)), i) == c,
        i < pos ==> cohort_at(cps.push((pos, c)), i) == cohort_at(cps, i),
{
    let r = cps.push((pos, c));
    assert(r.last() == (pos, c));
    if i < pos {
        assert(r.drop_last() =~= cps);
    }
}

/// Overwriting the cohort of the last change point only changes the governing
/// cohorts from its position on.
pub proof fn lemma_cohort_at_update_last(cps: Seq<(LineNumber, CohortKey)>, c: CohortKey, i: int)
    requires
        cps.len() > 0,
    ensures
        i >= cps.last().0 ==> cohort_at(cps.update(cps.len() - 1, (cps.last().0, c)), i) == c,
        i < cps.last().0 ==> cohort_at(cps.update(cps.len() - 1, (cps.last().0, c)), i)
            == cohort_at(cps, i),
{
    let r = cps.update(cps.len() - 1, (cps.last().0, c));
    assert(r.last() == (cps.last().0, c));
    if i < cps.last().0 {
        assert(r.drop_last() =~= cps.drop_last());
    }
}

/// Counting distributes over concatenation.
pub proof fn lemma_count_in_concat(a: Seq<u64>, b: Seq<u64>, c: u64)
    ensures
        count_in(a + b, c) == count_in(a, c) + count_in(b, c),
    decreases b.len(),
{
    if b.len() == 0 {
        assert(a + b =~= a);
    } else {
        lemma_count_in_concat(a, b.drop_last(), c);
        assert((a + b).drop_last() =~= a + b.drop_last());
        assert((a + b).last() == b.last());
    }
}

/// Counting in a constant sequence.
pub proof fn lemma_count_in_const(n: nat, v: u64, c: u64)
    ensures
        count_in(Seq::new(n, |i: int| v), c) == if v == c { n as int } else { 0 },
    decreases n,
{
    let s = Seq::new(n, |i: int| v);
    if n > 0 {
        lemma_count_in_const((n - 1) as nat, v, c);
        assert(s.drop_last() =~= Seq::new((n - 1) as nat, |i: int| v));
    }
}

/// A count never exceeds the length.
pub proof fn lemma_count_in_le_len(lines: Seq<u64>, c: u64)
    ensures
        0 <= count_in(lines, c) <= lines.len(),
    decreases lines.len(),
{
    if lines.len() > 0 {
        lemma_count_in_le_len(lines.drop_last(), c);
    }
}

// ---------------------------------------------------------------------------
// The data structures.
// ---------------------------------------------------------------------------

/// A contiguous run of lines attributed to one cohort.
#[derive(Debug, Clone, Copy, PartialEq, Eq, Structural)]
pub struct BlameRange {
    pub start_line: LineNumber,
    pub line_count: LineNumber,
    pub cohort: CohortKey,
}

impl BlameRange {
    pub fn new(start_line: LineNumber, line_count: LineNumber, cohort: CohortKey) -> (r: Self)
        ensures
            r.start_line == start_line,
            r.line_count == line_count,
            r.cohort == cohort,
    {
        BlameRange { start_line, line_count, cohort }
    }
}

/// Blame data for one file.  The view of a `FileBlame` is the expanded
/// sequence holding, for each of its `total_lines` lines, the cohort that
/// introduced the line.
#[derive(Debug)]
pub struct FileBlame {
    change_points: Vec<(LineNumber, CohortKey)>,
    total_lines: LineNumber,
    cohort_stats: Vec<(CohortKey, u64)>,
}

impl View for FileBlame {
    type V = Seq<u64>;

    closed spec fn view(&self) -> Seq<u64> {
        expand(self.change_points@, self.total_lines as int)
    }
}

impl FileBlame {
    /// Structural invariants of the encoding: change-point keys strictly
    /// increasing, starting at 0, all below `total_lines`, and none at all in
    /// an empty file.
    pub closed spec fn keys_ok(&self) -> bool {
        cps_ok(self.change_points@, self.total_lines as int)
    }

    /// The cached per-cohort tally agrees with the expansion.
    pub closed spec fn stats_ok(&self) -> bool {
        stats_complete(self.cohort_stats@, self@)
    }

    /// Well-formedness: structure and tally; the file fits in line numbers.
    pub open spec fn wf(&self) -> bool {
        self.keys_ok() && self.stats_ok() && self@.len() <= u32::MAX
    }

    /// Adjacent runs are merged.
    pub closed spec fn is_compact(&self) -> bool {
        cps_compact(self.change_points@)
    }

    pub fn new(total_lines: LineNumber, cohort: CohortKey) -> (r: Self)
        ensures
            r.wf(),
            r.is_compact(),
            r@ == Seq::new(total_lines as nat, |i: int| cohort),
    {
        let mut change_points: Vec<(LineNumber, CohortKey)> = Vec::new();
        let mut cohort_stats: Vec<(CohortKey, u64)> = Vec::new();
        if total_lines > 0 {
            change_points.push((0, cohort));
            cohort_stats.push((cohort, total_lines as u64));
        }
        let r = FileBlame { change_points, total_lines, cohort_stats };
        proof {
            assert(r@ =~= Seq::new(total_lines as nat, |i: int| cohort)) by {
                if total_lines > 0 {
                    assert forall|i: int| 0 <= i < total_lines implies
                        cohort_at(r.change_points@, i) == cohort by {
                        lemma_cohort_at_run(r.change_points@, 0, i);
                    }
                }
            }
            assert forall|c: u64| #[trigger] stats_lookup(r.cohort_stats@, c) == count_in(r@, c) by {
                lemma_count_in_const(total_lines as nat, cohort, c);
                assert(r@ =~= Seq::new(total_lines as nat, |i: int| cohort));
                assert(count_in(r@, c) == if cohort == c { total_lines as int } else { 0 });
                let s = r.cohort_stats@;
                if total_lines > 0 {
                    assert(s.len() == 1 && s.last() == (cohort, total_lines as u64));
                    if c == cohort {
                        assert(stats_lookup(s, c) == total_lines as int);
                    } else {
                        assert(s.drop_last() =~= Seq::<(CohortKey, u64)>::empty());
                        assert(stats_lookup(s.drop_last(), c) == 0);
                        assert(stats_lookup(s, c) == 0);
                    }
                } else {
                    assert(s.len() == 0);
                    assert(stats_lookup(s, c) == 0);
                }
            }
        }
        r
    }

    pub fn total_lines(&self) -> (r: LineNumber)
        ensures
            r == self@.len(),
    {
        self.total_lines
    }

    /// Number of runs in the encoding; on a well-formed compact blame this is
    /// the number of maximal same-cohort runs of the file.
    pub fn range_count(&self) -> (r: usize)
        ensures
            self.wf() && self.is_compact() ==> r == runs(self@),
    {
        proof {
            if self.wf() && self.is_compact() {
                lemma_cps_len_is_runs(self.change_points@, self.total_lines as int);
            }
        }
        self.change_points.len()
    }

    /// The cohort governing line `index`, or `None` past the end of the file.
    fn cohort_at_index(&self, index: LineNumber) -> (r: Option<CohortKey>)
        requires
            self.keys_ok(),
        ensures
            index < self@.len() ==> r == Some(cohort_at_spec(self, index as int)),
            index >= self@.len() ==> r is None,
    {
        if index >= self.total_lines {
            return None;
        }
        // binary search for the last change point at or before `index`
        let n = self.change_points.len();
        let mut lo: usize = 0;
        let mut hi: usize = n - 1;
        while lo < hi
            invariant
                self.keys_ok(),
                index < self.total_lines,
                n == self.change_points@.len(),
                lo <= hi < n,
                self.change_points@[lo as int].0 <= index,
                hi + 1 < self.change_points@.len() ==> index < self.change_points@[hi + 1].0,
            decreases hi - lo,
        {
            let mid = lo + (hi - lo + 1) / 2;
            if self.change_points[mid].0 <= index {
                lo = mid;
            } else {
                hi = mid - 1;
            }
        }
        proof {
            lemma_cohort_at_run(self.change_points@, lo as int, index as int);
        }
        Some(self.change_points[lo].1)
    }
}

impl FileBlame {
    /// Merge adjacent runs that share a cohort.  The per-line meaning of the
    /// blame is unchanged; afterwards the encoding is compact.
    pub fn merge_adjacent_ranges(&mut self)
        requires
            old(self).keys_ok(),
        ensures
            final(self).keys_ok(),
            final(self).is_compact(),
            final(self)@ == old(self)@,
            old(self).stats_ok() ==> final(self).wf(),
    {
        let ghost cps = self.change_points@;
        let ghost total = self.total_lines as int;
        let n = self.change_points.len();
        let mut out: Vec<(LineNumber, CohortKey)> = Vec::new();
        let mut i: usize = 0;
        while i < n
            invariant
                cps_ok(cps, total),
                n == cps.len(),
                self.change_points@ == cps,
                self.total_lines as int == total,
                i <= n,
                cps_compact(out@),
                forall|a: int, b: int|
                    0 <= a < b < out@.len() ==> (#[trigger] out@[a]).0 < (#[trigger] out@[b]).0,
                forall|k: int| 0 <= k < out@.len() ==> (#[trigger] out@[k]).0 < total,
                i > 0 ==> out@.len() > 0 && out@[0] == cps[0]
                    && out@.last().0 <= cps[i - 1].0 && out@.last().1 == cps[i - 1].1,
                i == 0 ==> out@.len() == 0,
                forall|idx: int|
                    0 <= idx < (if i < n { cps[i as int].0 as int } else { total })
                        ==> cohort_at(out@, idx) == cohort_at(cps, idx),
            decreases n - i,
        {
            let (key, c) = self.change_points[i];
            let ghost bound = if i + 1 < n { cps[i + 1].0 as int } else { total };
            proof {
                assert forall|idx: int| key as int <= idx < bound implies
                    cohort_at(cps, idx) == c by {
                    lemma_cohort_at_run(cps, i as int, idx);
                }
            }
            if out.len() > 0 && out[out.len() - 1].1 == c {
                proof {
                    assert forall|idx: int| 0 <= idx < bound implies
                        cohort_at(out@, idx) == cohort_at(cps, idx) by {
                        if idx >= key as int {
                            assert(out@.last().0 <= cps[i - 1].0 < key);
                            assert(cohort_at(out@, idx) == out@.last().1);
                        }
                    }
                }
            } else {
                let ghost out0 = out@;
                out.push((key, c));
                proof {
                    assert forall|idx: int| 0 <= idx < bound implies
                        cohort_at(out@, idx) == cohort_at(cps, idx) by {
                        lemma_cohort_at_push(out0, key, c, idx);
                    }
                    if i > 0 {
                        assert(out@[0] == out0[0]);
                    }
                }
            }
            i = i + 1;
        }
        proof {
            if total > 0 {
                assert(out@.len() > 0 && out@[0] == cps[0]);
            }
        }
        self.change_points = out;
        proof {
            assert(final(self)@ =~= expand(cps, total));
        }
    }

    /// The runs of the file as `(start, end, cohort)` triples, in ascending
    /// order of start; each run's end is the next run's start, and the last
    /// run ends at `total_lines`.
    pub fn ranges(&self) -> (r: Vec<(LineNumber, LineNumber, CohortKey)>)
        requires
            self.wf(),
        ensures
            is_run_decomposition(r@, self@),
            self.is_compact() ==> forall|k: int|
                0 < k < r@.len() ==> (#[trigger] r@[k]).2 != r@[k - 1].2,
    {
        let n = self.change_points.len();
        let mut r: Vec<(LineNumber, LineNumber, CohortKey)> = Vec::new();
        let mut k: usize = 0;
        while k < n
            invariant
                self.keys_ok(),
                n == self.change_points@.len(),
                k <= n,
                r@.len() == k,
                forall|j: int|
                    0 <= j < k ==> #[trigger] r@[j] == (
                        self.change_points@[j].0,
                        if j + 1 < n { self.change_points@[j + 1].0 } else { self.total_lines },
                        self.change_points@[j].1,
                    ),
            decreases n - k,
        {
            let (start, c) = self.change_points[k];
            let end = if k + 1 < n {
                self.change_points[k + 1].0
            } else {
                self.total_lines
            };
            r.push((start, end, c));
            k = k + 1;
        }
        proof {
            let cps = self.change_points@;
            let total = self.total_lines as int;
            assert forall|j: int, i: int| #![trigger r@[j], self@[i]]
                0 <= j < r@.len() && r@[j].0 <= i < r@[j].1 implies self@[i] == r@[j].2 by {
                assert(r@[j] == (cps[j].0, if j + 1 < n { cps[j + 1].0 } else { self.total_lines }, cps[j].1));
                lemma_cohort_at_run(cps, j, i);
            }
        }
        r
    }

    /// Check the structural invariants: no change points in an empty file,
    /// first change point at line 0, keys strictly increasing, and every key
    /// below `total_lines`.
    pub fn validate(&self) -> (r: Result<(), String>)
        ensures
            r is Ok <==> self.keys_ok(),
            self.wf() ==> r is Ok,
    {
        let n = self.change_points.len();
        if self.total_lines == 0 {
            if n != 0 {
                return Err("Change-points must be empty when total_lines == 0".to_owned());
            }
            return Ok(());
        }
        if n == 0 || self.change_points[0].0 != 0 {
            return Err("The first change-point must be at line 0".to_owned());
        }
        let mut k: usize = 0;
        while k < n
            invariant
                n == self.change_points@.len(),
                k <= n,
                self.total_lines > 0,
                n > 0 && self.change_points@[0].0 == 0,
                forall|a: int, b: int|
                    0 <= a < b < k ==> (#[trigger] self.change_points@[a]).0
                        < (#[trigger] self.change_points@[b]).0,
                forall|j: int|
                    0 <= j < k ==> (#[trigger] self.change_points@[j]).0 < self.total_lines,
            decreases n - k,
        {
            let (key, _) = self.change_points[k];
            if key >= self.total_lines {
                return Err("Change-point key must be < total_lines".to_owned());
            }
            if k > 0 && self.change_points[k - 1].0 >= key {
                return Err("Change-point keys must be strictly increasing".to_owned());
            }
            proof {
                assert forall|a: int, b: int| 0 <= a < b < k + 1 implies
                    (#[trigger] self.change_points@[a]).0 < (#[trigger] self.change_points@[b]).0 by {
                    if b == k as int && a < k - 1 {
                        assert(self.change_points@[a].0 < self.change_points@[k - 1].0);
                    }
                }
            }
            k = k + 1;
        }
        Ok(())
    }

    /// A copy of the per-cohort tally of this file: for every cohort with at
    /// least one line, its line count, each cohort listed once.
    pub fn cohort_stats(&self) -> (r: Vec<(CohortKey, u64)>)
        requires
            self.wf(),
        ensures
            stats_complete(r@, self@),
            r@ == self.spec_cohort_stats(),
    {
        let n = self.cohort_stats.len();
        let mut r: Vec<(CohortKey, u64)> = Vec::new();
        let mut k: usize = 0;
        while k < n
            invariant
                n == self.cohort_stats@.len(),
                k <= n,
                r@ == self.cohort_stats@.take(k as int),
            decreases n - k,
        {
            let (c, v) = self.cohort_stats[k];
            r.push((c, v));
            proof {
                assert(r@ =~= self.cohort_stats@.take(k + 1));
            }
            k = k + 1;
        }
        proof {
            assert(r@ =~= self.cohort_stats@);
        }
        r
    }

    /// The cached per-cohort tally.
    pub closed spec fn spec_cohort_stats(&self) -> Seq<(CohortKey, u64)> {
        self.cohort_stats@
    }

    /// Recompute the per-cohort tally from the change points.
    fn compute_cohort_stats(&self) -> (r: Vec<(CohortKey, u64)>)
        requires
            self.keys_ok(),
        ensures
            stats_complete(r@, self@),
    {
        let ghost cps = self.change_points@;
        let ghost total = self.total_lines as int;
        let n = self.change_points.len();
        let mut stats: Vec<(CohortKey, u64)> = Vec::new();
        let mut k: usize = 0;
        proof {
            assert(self@.take(if 0 < n { cps[0].0 as int } else { total }) =~= Seq::<u64>::empty());
        }
        while k < n
            invariant
                cps_ok(cps, total),
                self.change_points@ == cps,
                self.total_lines as int == total,
                self@ == expand(cps, total),
                n == cps.len(),
                k <= n,
                forall|k1: int, k2: int|
                    0 <= k1 < k2 < stats@.len() ==> (#[trigger] stats@[k1]).0 != (#[trigger] stats@[k2]).0,
                forall|j: int| 0 <= j < stats@.len() ==> (#[trigger] stats@[j]).1 > 0,
                forall|c: u64| #[trigger] stats_lookup(stats@, c)
                    == count_in(self@.take(if k < n { cps[k as int].0 as int } else { total }), c),
            decreases n - k,
        {
            let (start, c) = self.change_points[k];
            let end = if k + 1 < n {
                self.change_points[k + 1].0
            } else {
                self.total_lines
            };
            let ghost prefix = self@.take(start as int);
            let ghost next_prefix = self@.take(end as int);
            proof {
                assert(start < end <= total);
                assert forall|i: int| start as int <= i < end as int implies self@[i] == c by {
                    lemma_cohort_at_run(cps, k as int, i);
                }
                assert(next_prefix =~= prefix + Seq::new((end - start) as nat, |i: int| c));
                assert forall|c2: u64| count_in(next_prefix, c2)
                    == count_in(prefix, c2) + (if c2 == c { end - start } else { 0int }) by {
                    lemma_count_in_concat(prefix, Seq::new((end - start) as nat, |i: int| c), c2);
                    lemma_count_in_const((end - start) as nat, c, c2);
                }
                lemma_count_in_le_len(prefix, c);
            }
            add_stat(&mut stats, c, (end - start) as u64, Ghost(prefix));
            k = k + 1;
        }
        proof {
            assert(self@.take(total) =~= self@);
        }
        stats
    }
}

/// Add `n` lines of cohort `c` to a tally whose lookups currently agree with
/// the counts of `prefix`.
fn add_stat(
    stats: &mut Vec<(CohortKey, u64)>,
    c: CohortKey,
    n: u64,
    Ghost(prefix): Ghost<Seq<u64>>,
)
    requires
        n > 0,
        forall|k1: int, k2: int|
            0 <= k1 < k2 < old(stats)@.len()
                ==> (#[trigger] old(stats)@[k1]).0 != (#[trigger] old(stats)@[k2]).0,
        forall|j: int| 0 <= j < old(stats)@.len() ==> (#[trigger] old(stats)@[j]).1 > 0,
        forall|c2: u64| #[trigger] stats_lookup(old(stats)@, c2) == count_in(prefix, c2),
        count_in(prefix, c) + n <= u64::MAX,
    ensures
        forall|k1: int, k2: int|
            0 <= k1 < k2 < final(stats)@.len()
                ==> (#[trigger] final(stats)@[k1]).0 != (#[trigger] final(stats)@[k2]).0,
        forall|j: int| 0 <= j < final(stats)@.len() ==> (#[trigger] final(stats)@[j]).1 > 0,
        forall|c2: u64| #[trigger] stats_lookup(final(stats)@, c2)
            == stats_lookup(old(stats)@, c2) + if c2 == c { n as int } else { 0int },
{
    let len = stats.len();
    let mut i: usize = 0;
    while i < len
        invariant
            len == stats@.len(),
            stats@ == old(stats)@,
            i <= len,
            n > 0,
            forall|j: int| 0 <= j < i ==> (#[trigger] stats@[j]).0 != c,
            forall|k1: int, k2: int|
                0 <= k1 < k2 < stats@.len()
                    ==> (#[trigger] stats@[k1]).0 != (#[trigger] stats@[k2]).0,
            forall|j: int| 0 <= j < stats@.len() ==> (#[trigger] stats@[j]).1 > 0,
            forall|c2: u64| #[trigger] stats_lookup(stats@, c2) == count_in(prefix, c2),
            count_in(prefix, c) + n <= u64::MAX,
        decreases len - i,
    {
        if stats[i].0 == c {
            proof {
                lemma_stats_lookup_at(stats@, i as int, c);
            }
            let v = stats[i].1;
            let ghost s0 = stats@;
            stats.set(i, (c, v + n));
            proof {
                lemma_stats_lookup_update(s0, i as int, (v + n) as u64, c);
            }
            return;
        }
        i = i + 1;
    }
    let ghost s0 = stats@;
    proof {
        lemma_stats_lookup_absent(s0, c);
    }
    stats.push((c, n));
    proof {
        assert(stats@.drop_last() =~= s0);
        assert forall|c2: u64| #[trigger] stats_lookup(stats@, c2)
            == stats_lookup(s0, c2) + if c2 == c { n as int } else { 0int } by {
            assert(stats@.last() == (c, n));
        }
    }
}

/// With unique keys, the lookup of a listed cohort is its entry.
pub proof fn lemma_stats_lookup_at(stats: Seq<(CohortKey, u64)>, i: int, c: u64)
    requires
        forall|k1: int, k2: int|
            0 <= k1 < k2 < stats.len() ==> (#[trigger] stats[k1]).0 != (#[trigger] stats[k2]).0,
        0 <= i < stats.len(),
        stats[i].0 == c,
    ensures
        stats_lookup(stats, c) == stats[i].1,
    decreases stats.len(),
{
    if i == stats.len() - 1 {
    } else {
        assert(stats.last().0 != c) by {
            assert(stats[i].0 != stats[stats.len() - 1].0);
        }
        assert(stats.drop_last()[i] == stats[i]);
        lemma_stats_lookup_at(stats.drop_last(), i, c);
    }
}

/// A cohort with no entry looks up to 0.
pub proof fn lemma_stats_lookup_absent(stats: Seq<(CohortKey, u64)>, c: u64)
    requires
        forall|j: int| 0 <= j < stats.len() ==> (#[trigger] stats[j]).0 != c,
    ensures
        stats_lookup(stats, c) == 0,
    decreases stats.len(),
{
    if stats.len() > 0 {
        lemma_stats_lookup_absent(stats.drop_last(), c);
    }
}

/// Updating the entry of one cohort changes only that cohort's lookup.
proof fn lemma_stats_lookup_update(stats: Seq<(CohortKey, u64)>, i: int, v: u64, c: u64)
    requires
        forall|k1: int, k2: int|
            0 <= k1 < k2 < stats.len() ==> (#[trigger] stats[k1]).0 != (#[trigger] stats[k2]).0,
        0 <= i < stats.len(),
        stats[i].0 == c,
    ensures
        forall|c2: u64| #[trigger] stats_lookup(stats.update(i, (c, v)), c2)
            == if c2 == c { v as int } else { stats_lookup(stats, c2) },
    decreases stats.len(),
{
    let r = stats.update(i, (c, v));
    if i == stats.len() - 1 {
        assert(r.last() == (c, v));
        assert(r.drop_last() =~= stats.drop_last());
        assert forall|c2: u64| #[trigger] stats_lookup(r, c2)
            == if c2 == c { v as int } else { stats_lookup(stats, c2) } by {
            if c2 != c {
                assert(stats.last().0 == c);
            }
        }
    } else {
        assert(stats.drop_last()[i] == stats[i]);
        lemma_stats_lookup_update(stats.drop_last(), i, v, c);
        assert(r.last() == stats.last());
        assert(r.drop_last() =~= stats.drop_last().update(i, (c, v)));
        assert forall|c2: u64| #[trigger] stats_lookup(r, c2)
            == if c2 == c { v as int } else { stats_lookup(stats, c2) } by {
            assert(stats_lookup(stats.drop_last().update(i, (c, v)), c2)
                == if c2 == c { v as int } else { stats_lookup(stats.drop_last(), c2) });
            if c2 == c {
                assert(stats.last().0 != c) by {
                    assert(stats[i].0 != stats[stats.len() - 1].0);
                }
            }
        }
    }
}

impl FileBlame {
    /// Apply a batch of line diffs in one forward sweep and return the blame
    /// of the resulting file.
    ///
    /// Each diff `(delete, insert, cohort)` removes the pre-diff lines
    /// `[delete.start, delete.end)` and inserts `insert.len()` lines of
    /// `cohort` in their place; the batch may arrive unsorted (it is sorted
    /// stably by delete start as part of the operation) but its delete ranges
    /// must not overlap.  The result's view is exactly
    /// `diffs::apply_diffs(self@, ...)`: the spliced per-line cohort
    /// sequence.
    #[verifier::rlimit(100)]
    pub fn apply_line_diffs(&self, line_diffs: LineDiffs) -> (r: FileBlame)
        requires
            self.wf(),
            diffs::diffs_wf(diffs::diff_views(line_diffs@), self@.len() as int),
            diffs::pairwise_disjoint(diffs::diff_views(line_diffs@)),
            self@.len() + diffs::sum_inserts(diffs::diff_views(line_diffs@)) <= u32::MAX,
        ensures
            r.wf(),
            r.is_compact(),
            r@ == diffs::apply_diffs(self@, diffs::diff_views(line_diffs@)),
    {
        let ghost lines = self@;
        let ghost ds0 = diffs::diff_views(line_diffs@);
        let mut sorted_diffs = line_diffs;
        diffs::sort_line_diffs(&mut sorted_diffs);
        let ghost ds = diffs::diff_views(sorted_diffs@);
        proof {
            diffs::lemma_sort_diffs_basic(ds0);
            diffs::lemma_sort_diffs_wf(ds0, lines.len() as int);
            diffs::lemma_sort_diffs_disjoint(ds0);
            diffs::lemma_sorted_disjoint_chained(ds);
            diffs::lemma_sort_sum_inserts(ds0);
        }
        let ghost target = diffs::apply_sorted(lines, ds);
        proof {
            diffs::lemma_target_tail(lines, ds);
            diffs::lemma_off_bounds(ds, lines.len() as int, ds.len() as int);
            assert(target.len() <= lines.len() + diffs::sum_inserts(ds));
        }
        let n_diffs = sorted_diffs.len();
        let n_cps = self.change_points.len();
        let ghost cps = self.change_points@;
        let old_total = self.total_lines;
        proof {
            assert(lines.len() == old_total as int);
        }

        let mut out: Vec<(LineNumber, CohortKey)> = Vec::new();
        let mut ci: usize = 0;
        let mut offset: i64 = 0;
        let mut m: usize = 0;
        let ghost mut cov: int = 0;

        while m < n_diffs
            invariant
                self.wf(),
                cps == self.change_points@,
                lines == self@,
                n_cps == cps.len(),
                old_total == self.total_lines,
                lines.len() == old_total as int,
                ds == diffs::diff_views(sorted_diffs@),
                n_diffs == sorted_diffs@.len(),
                ds.len() == n_diffs as int,
                diffs::diffs_wf(ds, lines.len() as int),
                diffs::sorted_by_start(ds),
                diffs::chained(ds),
                target == diffs::apply_sorted(lines, ds),
                target.len() == lines.len() + diffs::off_at(ds, n_diffs as int),
                target.len() <= u32::MAX,
                m <= n_diffs,
                ci <= n_cps,
                offset as int == diffs::off_at(ds, m as int),
                cov == diffs::start_at(ds, m as int) + diffs::off_at(ds, m as int),
                0 <= cov <= target.len(),
                forall|j: int| 0 <= j < ci ==> (#[trigger] cps[j]).0 < diffs::start_at(ds, m as int),
                forall|j: int| ci <= j < n_cps ==> (#[trigger] cps[j]).0 >= diffs::start_at(ds, m as int),
                forall|a: int, b: int|
                    0 <= a < b < out@.len() ==> (#[trigger] out@[a]).0 < (#[trigger] out@[b]).0,
                out@.len() > 0 ==> out@[0].0 == 0 && out@.last().0 <= cov,
                out@.len() == 0 ==> cov == 0 && (m == 0
                    || diffs::start_at(ds, m as int) >= lines.len()),
                forall|i: int| 0 <= i < cov ==> #[trigger] cohort_at(out@, i) == target[i],
                out@.len() > 0 && diffs::start_at(ds, m as int) < lines.len()
                    ==> forall|i: int| i >= cov ==> #[trigger] cohort_at(out@, i)
                        == cohort_at(cps, diffs::start_at(ds, m as int)),
            decreases n_diffs - m,
        {
            let d_start = sorted_diffs[m].0.start;
            let d_end = sorted_diffs[m].0.end;
            let i_len = sorted_diffs[m].1.end - sorted_diffs[m].1.start;
            let cohort = sorted_diffs[m].2;
            proof {
                assert(ds[m as int] == diffs::dv(sorted_diffs@[m as int]));
                assert(diffs::diff_wf(ds[m as int], lines.len() as int));
                assert(d_start as int == ds[m as int].d0);
                assert(d_end as int == ds[m as int].d1);
                assert(i_len as int == ds[m as int].ins);
                diffs::lemma_target_segments(lines, ds, m as int);
                diffs::lemma_off_bounds(ds, lines.len() as int, m as int);
                diffs::lemma_off_bounds(ds, lines.len() as int, m as int + 1);
                diffs::lemma_suffix_index(lines, ds, m as int + 1);
                diffs::lemma_suffix_len(lines, ds, m as int + 1);
                if m > 0 {
                    assert(diffs::diff_wf(ds[m as int - 1], lines.len() as int));
                    assert(ds[m as int - 1].d1 <= ds[m as int].d0);
                }
                assert(diffs::start_at(ds, m as int) <= ds[m as int].d0);
            }
            let ghost mut cur: int = diffs::start_at(ds, m as int);

            // Phase 1: carry over the change points before this delete,
            // shifted by the running offset.
            while ci < n_cps && self.change_points[ci].0 < d_start
                invariant
                    self.wf(),
                    cps == self.change_points@,
                    lines == self@,
                    n_cps == cps.len(),
                    old_total == self.total_lines,
                    lines.len() == old_total as int,
                    ds == diffs::diff_views(sorted_diffs@),
                    n_diffs == sorted_diffs@.len(),
                    ds.len() == n_diffs as int,
                    diffs::diffs_wf(ds, lines.len() as int),
                    diffs::sorted_by_start(ds),
                    diffs::chained(ds),
                    target == diffs::apply_sorted(lines, ds),
                    target.len() == lines.len() + diffs::off_at(ds, n_diffs as int),
                    target.len() <= u32::MAX,
                    m < n_diffs,
                    d_start as int == ds[m as int].d0,
                    offset as int == diffs::off_at(ds, m as int),
                    ci <= n_cps,
                    diffs::start_at(ds, m as int) <= cur,
                    cur <= ds[m as int].d0,
                    cov == cur + diffs::off_at(ds, m as int),
                    0 <= cov <= target.len(),
                    forall|j: int| 0 <= j < ci
                        ==> (#[trigger] cps[j]).0 <= cur && cps[j].0 < ds[m as int].d0,
                    forall|j: int| ci <= j < n_cps ==> (#[trigger] cps[j]).0 >= cur,
                    forall|a: int, b: int|
                        0 <= a < b < out@.len() ==> (#[trigger] out@[a]).0 < (#[trigger] out@[b]).0,
                    out@.len() > 0 ==> out@[0].0 == 0 && out@.last().0 <= cov,
                    out@.len() == 0 ==> cov == 0 && (ci == 0 || cur >= lines.len()),
                    forall|i: int| 0 <= i < cov ==> #[trigger] cohort_at(out@, i) == target[i],
                    out@.len() > 0 && cur < lines.len()
                        ==> forall|i: int| i >= cov ==> #[trigger] cohort_at(out@, i)
                            == cohort_at(cps, cur),
                decreases n_cps - ci,
            {
                let (key, kc) = self.change_points[ci];
                proof {
                    diffs::lemma_target_segments(lines, ds, m as int);
                    assert(cps[ci as int] == (key, kc));
                    assert(cur <= key as int);
                    assert(key < old_total);
                    // the gap between `cur` and this key keeps one cohort
                    lemma_gap_cohorts(cps, old_total as int, cur, key as int, ci as int);
                    if cur < key as int {
                        // a nonempty gap can only arise with content already
                        // appended
                        if out@.len() == 0 {
                            if ci == 0 {
                                assert(cps[0].0 == 0);
                                assert(false);
                            } else {
                                assert(cur >= lines.len());
                                assert(cps[ci as int].0 >= cur);
                                assert(false);
                            }
                        }
                    }
                }
                let pos64 = key as i64 + offset;
                proof {
                    assert(cur + offset as int >= 0);
                    assert(key as int + offset as int >= cur + offset as int);
                    assert((key as int + offset as int) < target.len()) by {
                        assert(target[key as int + diffs::off_at(ds, m as int)]
                            == lines[key as int]);
                    }
                }
                let pos = pos64 as u32;
                let ghost out0 = out@;
                push_cp(&mut out, pos, kc);
                proof {
                    // the gap [cov, pos) now agrees with the result
                    assert forall|i: int| 0 <= i < key as int + offset as int implies
                        #[trigger] cohort_at(out@, i) == target[i] by {
                        if i < cov {
                            assert(cohort_at(out@, i) == cohort_at(out0, i));
                        } else {
                            let t = i - offset as int;
                            assert(cur <= t < key as int);
                            assert(cohort_at(out@, i) == cohort_at(out0, i));
                            assert(cohort_at(out0, i) == cohort_at(cps, cur));
                            assert(target[i] == lines[t]);
                            assert(lines[t] == cohort_at(cps, t));
                            assert(cohort_at(cps, t) == cohort_at(cps, cur));
                        }
                    }
                    assert forall|i: int| i >= key as int + offset as int implies
                        #[trigger] cohort_at(out@, i) == cohort_at(cps, key as int) by {
                        assert(cohort_at(out@, i) == kc);
                        lemma_cohort_at_run(cps, ci as int, key as int);
                    }
                    cur = key as int;
                    cov = key as int + offset as int;
                }
                ci = ci + 1;
                proof {
                    // the next key, if any, lies strictly beyond this one
                    assert forall|j: int| ci <= j < n_cps implies (#[trigger] cps[j]).0 >= cur by {
                        assert(cps[ci - 1].0 < cps[j].0);
                    }
                    // re-establish cont at the new cur
                    if cur < lines.len() {
                        assert forall|i: int| i >= cov implies #[trigger] cohort_at(out@, i)
                            == cohort_at(cps, cur) by {
                            lemma_cohort_at_run(cps, ci - 1, cur);
                        }
                    }
                }
            }
            proof {
                // after the copy phase every unconsumed change point is at or
                // past the delete start
                assert forall|j: int| ci <= j < n_cps implies
                    (#[trigger] cps[j]).0 >= ds[m as int].d0 by {
                    if ci < n_cps {
                        if j > ci {
                            assert(cps[ci as int].0 < cps[j].0);
                        }
                    }
                }
                // settle the remaining gap up to the delete start
                lemma_gap_cohorts(cps, old_total as int, cur, d_start as int, ci as int);
                if cur < d_start as int {
                    if out@.len() == 0 {
                        if ci == 0 {
                            if n_cps > 0 {
                                assert(cps[0].0 == 0);
                                assert(cps[0].0 >= ds[m as int].d0);
                                assert(false);
                            } else {
                                assert(lines.len() == 0);
                                assert(false);
                            }
                        } else {
                            assert(cur >= lines.len());
                            assert(false);
                        }
                    }
                }
                assert forall|i: int| 0 <= i < ds[m as int].d0 + diffs::off_at(ds, m as int) implies
                    #[trigger] cohort_at(out@, i) == target[i] by {
                    if i >= cov {
                        let t = i - offset as int;
                        assert(cur <= t < ds[m as int].d0);
                        assert(cohort_at(out@, i) == cohort_at(cps, cur));
                        assert(target[i] == lines[t]);
                        assert(lines[t] == cohort_at(cps, t));
                    }
                }
                cov = ds[m as int].d0 + diffs::off_at(ds, m as int);
            }

            // Phase 2: the inserted lines' cohort begins at the delete start.
            if i_len > 0 {
                let pos64 = d_start as i64 + offset;
                let pos = pos64 as u32;
                proof {
                    assert(0 <= pos64 < target.len()) by {
                        assert(target[ds[m as int].d0 + diffs::off_at(ds, m as int) + 0]
                            == ds[m as int].cohort);
                    }
                }
                let ghost out0 = out@;
                push_cp(&mut out, pos, cohort);
                proof {
                    assert forall|i: int| 0 <= i < cov + i_len as int implies
                        #[trigger] cohort_at(out@, i) == target[i] by {
                        if i < cov {
                            assert(cohort_at(out@, i) == cohort_at(out0, i));
                        } else {
                            assert(cohort_at(out@, i) == cohort);
                            let u = i - cov;
                            assert(target[ds[m as int].d0 + diffs::off_at(ds, m as int) + u]
                                == ds[m as int].cohort);
                        }
                    }
                    cov = cov + i_len as int;
                }
            }

            // Phase 3: drop the change points inside the deleted range.
            while ci < n_cps && self.change_points[ci].0 < d_end
                invariant
                    cps == self.change_points@,
                    n_cps == cps.len(),
                    ci <= n_cps,
                    forall|j: int| 0 <= j < ci ==> (#[trigger] cps[j]).0 < d_end,
                decreases n_cps - ci,
            {
                ci = ci + 1;
            }
            proof {
                assert(d_end as int == ds[m as int].d1);
            }
            proof {
                assert forall|j: int| ci <= j < n_cps implies
                    (#[trigger] cps[j]).0 >= ds[m as int].d1 by {
                    if j > ci {
                        assert(cps[ci as int].0 < cps[j].0);
                    }
                }
            }

            // Phase 4: if lines survive past the delete, resume their cohort.
            if d_end < old_total {
                let rc_opt = self.cohort_at_index(d_end);
                let pos64 = d_start as i64 + i_len as i64 + offset;
                let pos = pos64 as u32;
                proof {
                    assert(pos64 == cov);
                    // cov is the length of the settled prefix, at most the
                    // whole result
                    assert(diffs::start_at(ds, m as int + 1) + diffs::off_at(ds, m as int + 1)
                        == cov);
                    assert(0 <= cov <= target.len());
                }
                if let Some(rc) = rc_opt {
                    push_cp(&mut out, pos, rc);
                    proof {
                        assert(rc == cohort_at(cps, d_end as int));
                    }
                }
            }
            let delta = i_len as i64 - (d_end - d_start) as i64;
            offset = offset + delta;
            proof {
                assert(offset as int == diffs::off_at(ds, m as int + 1));
                cov = diffs::start_at(ds, m as int + 1) + diffs::off_at(ds, m as int + 1);
                assert(cov == ds[m as int].d0 + i_len as int + diffs::off_at(ds, m as int));
            }
            m = m + 1;
            proof {
                if out@.len() > 0 && diffs::start_at(ds, m as int) < lines.len() {
                    assert forall|i: int| i >= cov implies #[trigger] cohort_at(out@, i)
                        == cohort_at(cps, diffs::start_at(ds, m as int)) by {}
                }
            }
        }

        // Drain: carry over the change points after the last delete.
        let ghost mut cur: int = diffs::start_at(ds, n_diffs as int);
        proof {
            diffs::lemma_off_bounds(ds, lines.len() as int, n_diffs as int);
        }
        while ci < n_cps
            invariant
                self.wf(),
                cps == self.change_points@,
                lines == self@,
                n_cps == cps.len(),
                old_total == self.total_lines,
                lines.len() == old_total as int,
                ds == diffs::diff_views(sorted_diffs@),
                n_diffs == sorted_diffs@.len(),
                ds.len() == n_diffs as int,
                diffs::diffs_wf(ds, lines.len() as int),
                diffs::sorted_by_start(ds),
                diffs::chained(ds),
                target == diffs::apply_sorted(lines, ds),
                target.len() == lines.len() + diffs::off_at(ds, n_diffs as int),
                target.len() <= u32::MAX,
                offset as int == diffs::off_at(ds, n_diffs as int),
                ci <= n_cps,
                diffs::start_at(ds, n_diffs as int) <= cur,
                cur <= lines.len(),
                cov == cur + diffs::off_at(ds, n_diffs as int),
                0 <= cov <= target.len(),
                forall|j: int| 0 <= j < ci ==> (#[trigger] cps[j]).0 <= cur,
                forall|j: int| ci <= j < n_cps ==> (#[trigger] cps[j]).0 >= cur,
                forall|a: int, b: int|
                    0 <= a < b < out@.len() ==> (#[trigger] out@[a]).0 < (#[trigger] out@[b]).0,
                out@.len() > 0 ==> out@[0].0 == 0 && out@.last().0 <= cov,
                out@.len() == 0 ==> cov == 0 && (ci == 0 || cur >= lines.len()),
                forall|i: int| 0 <= i < cov ==> #[trigger] cohort_at(out@, i) == target[i],
                out@.len() > 0 && cur < lines.len()
                    ==> forall|i: int| i >= cov ==> #[trigger] cohort_at(out@, i)
                        == cohort_at(cps, cur),
            decreases n_cps - ci,
        {
            let (key, kc) = self.change_points[ci];
            proof {
                diffs::lemma_target_tail(lines, ds);
                assert(cps[ci as int] == (key, kc));
                assert(cur <= key as int);
                assert(key < old_total);
                lemma_gap_cohorts(cps, old_total as int, cur, key as int, ci as int);
                if cur < key as int && out@.len() == 0 {
                    if ci == 0 {
                        assert(cps[0].0 == 0);
                        assert(false);
                    } else {
                        assert(cur >= lines.len());
                        assert(false);
                    }
                }
            }
            let pos64 = key as i64 + offset;
            proof {
                assert((key as int + offset as int) < target.len()) by {
                    assert(target[key as int + diffs::off_at(ds, n_diffs as int)]
                        == lines[key as int]);
                }
            }
            let pos = pos64 as u32;
            let ghost out0 = out@;
            push_cp(&mut out, pos, kc);
            proof {
                assert forall|i: int| 0 <= i < key as int + offset as int implies
                    #[trigger] cohort_at(out@, i) == target[i] by {
                    if i < cov {
                        assert(cohort_at(out@, i) == cohort_at(out0, i));
                    } else {
                        let t = i - offset as int;
                        assert(cur <= t < key as int);
                        assert(cohort_at(out@, i) == cohort_at(out0, i));
                        assert(cohort_at(out0, i) == cohort_at(cps, cur));
                        assert(target[i] == lines[t]);
                        assert(lines[t] == cohort_at(cps, t));
                    }
                }
                assert forall|i: int| i >= key as int + offset as int implies
                    #[trigger] cohort_at(out@, i) == cohort_at(cps, key as int) by {
                    assert(cohort_at(out@, i) == kc);
                    lemma_cohort_at_run(cps, ci as int, key as int);
                }
                cur = key as int;
                cov = key as int + offset as int;
            }
            ci = ci + 1;
            proof {
                assert forall|j: int| ci <= j < n_cps implies (#[trigger] cps[j]).0 >= cur by {
                    assert(cps[ci - 1].0 < cps[j].0);
                }
                if cur < lines.len() {
                    assert forall|i: int| i >= cov implies #[trigger] cohort_at(out@, i)
                        == cohort_at(cps, cur) by {
                        lemma_cohort_at_run(cps, ci - 1, cur);
                    }
                }
            }
        }
        proof {
            // settle the tail: the remaining lines keep the current cohort
            lemma_gap_cohorts(cps, old_total as int, cur, lines.len() as int, ci as int);
            if cur < lines.len() && out@.len() == 0 {
                if ci == 0 {
                    assert(n_cps == 0);
                    assert(lines.len() == 0);
                    assert(false);
                } else {
                    assert(false);
                }
            }
            assert forall|i: int| 0 <= i < target.len() implies
                #[trigger] cohort_at(out@, i) == target[i] by {
                if i >= cov {
                    let t = i - diffs::off_at(ds, n_diffs as int);
                    assert(cur <= t < lines.len());
                    assert(cohort_at(out@, i) == cohort_at(cps, cur));
                    assert(target[i] == lines[t]);
                    assert(lines[t] == cohort_at(cps, t));
                }
            }
            cov = target.len() as int;
        }

        let new_total64 = old_total as i64 + offset;
        proof {
            assert(new_total64 == target.len());
        }
        let new_total = new_total64 as u32;

        // A change point can sit exactly at the new end of file when a final
        // delete reached the end; drop it.
        if out.len() > 0 && out[out.len() - 1].0 >= new_total {
            let ghost out0 = out@;
            proof {
                assert(out0.last().0 <= cov);
            }
            out.pop();
            proof {
                assert(out@ =~= out0.drop_last());
                assert forall|i: int| 0 <= i < target.len() implies
                    #[trigger] cohort_at(out@, i) == target[i] by {
                    assert(i < out0.last().0);
                    assert(cohort_at(out0, i) == cohort_at(out0.drop_last(), i));
                }
                if out@.len() > 0 {
                    assert(out@[0] == out0[0]);
                    assert(out@.last() == out0[out0.len() - 2]);
                    assert(out0[out0.len() - 2].0 < out0[out0.len() - 1].0);
                }
            }
        }
        proof {
            // structural invariants of the result encoding
            assert(cps_ok(out@, new_total as int)) by {
                assert forall|k: int| 0 <= k < out@.len() implies
                    (#[trigger] out@[k]).0 < new_total by {
                    if k < out@.len() - 1 {
                        assert(out@[k].0 < out@[out@.len() - 1].0);
                    }
                }
                if new_total > 0 {
                    assert(out@.len() > 0 && out@[0].0 == 0);
                }
            }
        }

        let mut nb = FileBlame {
            change_points: out,
            total_lines: new_total,
            cohort_stats: Vec::new(),
        };
        proof {
            assert(nb.keys_ok());
            assert(nb@ =~= target);
        }
        nb.merge_adjacent_ranges();
        let stats = nb.compute_cohort_stats();
        nb.cohort_stats = stats;
        proof {
            assert(nb@ == target);
            assert(nb.stats_ok());
            assert(diffs::apply_diffs(lines, ds0) == target);
        }
        nb
    }
}

/// Append a change point at `pos`, keeping keys strictly increasing: when the
/// cohort equals the current last run's, the run simply continues; a change
/// point landing exactly on the last key replaces it (that last run would
/// have length zero).  In every case the governing cohorts below `pos` are
/// unchanged and from `pos` on they are `cohort`.
fn push_cp(out: &mut Vec<(LineNumber, CohortKey)>, pos: LineNumber, cohort: CohortKey)
    requires
        forall|a: int, b: int|
            0 <= a < b < old(out)@.len()
                ==> (#[trigger] old(out)@[a]).0 < (#[trigger] old(out)@[b]).0,
        old(out)@.len() > 0 ==> old(out)@.last().0 <= pos,
    ensures
        forall|a: int, b: int|
            0 <= a < b < final(out)@.len()
                ==> (#[trigger] final(out)@[a]).0 < (#[trigger] final(out)@[b]).0,
        final(out)@.len() > 0,
        final(out)@.last().0 <= pos,
        final(out)@[0].0 == if old(out)@.len() > 0 { old(out)@[0].0 } else { pos },
        forall|i: int| 0 <= i < pos ==> cohort_at(final(out)@, i) == cohort_at(old(out)@, i),
        forall|i: int| i >= pos ==> #[trigger] cohort_at(final(out)@, i) == cohort,
{
    let n = out.len();
    if n > 0 {
        let (lk, lc) = out[n - 1];
        if lc == cohort {
            // the last run already carries this cohort
            proof {
                assert(out@.last() == (lk, lc));
                assert forall|i: int| i >= pos implies #[trigger] cohort_at(out@, i) == cohort by {
                    assert(out@.last().0 <= i);
                }
            }
            return;
        }
        if lk == pos {
            let ghost s0 = out@;
            out.set(n - 1, (pos, cohort));
            proof {
                assert(out@ =~= s0.update(s0.len() - 1, (s0.last().0, cohort)));
                assert forall|i: int| 0 <= i < pos implies
                    cohort_at(out@, i) == cohort_at(s0, i) by {
                    lemma_cohort_at_update_last(s0, cohort, i);
                }
                assert forall|i: int| i >= pos implies #[trigger] cohort_at(out@, i) == cohort by {
                    lemma_cohort_at_update_last(s0, cohort, i);
                }
                assert(out@[0].0 == s0[0].0);
            }
            return;
        }
    }
    let ghost s0 = out@;
    out.push((pos, cohort));
    proof {
        assert(out@ =~= s0.push((pos, cohort)));
        if s0.len() > 0 {
            // both early-return branches were not taken, so the last key is
            // strictly below `pos`
            assert(s0.last().0 < pos);
        }
        assert forall|a: int, b: int| 0 <= a < b < out@.len() implies
            (#[trigger] out@[a]).0 < (#[trigger] out@[b]).0 by {
            if b < s0.len() {
                assert(s0[a].0 < s0[b].0);
            } else {
                if a < s0.len() - 1 {
                    assert(s0[a].0 < s0[s0.len() - 1].0);
                }
            }
        }
        assert forall|i: int| 0 <= i < pos implies
            cohort_at(out@, i) == cohort_at(s0, i) by {
            lemma_cohort_at_push(s0, pos, cohort, i);
        }
        assert forall|i: int| i >= pos implies #[trigger] cohort_at(out@, i) == cohort by {
            lemma_cohort_at_push(s0, pos, cohort, i);
        }
        if s0.len() > 0 {
            assert(out@[0] == s0[0]);
        }
    }
}

/// Between the last consumed change point and the next unconsumed one the
/// governing cohort is constant.
proof fn lemma_gap_cohorts(cps: Seq<(LineNumber, CohortKey)>, total: int, cur: int, bound: int, ci: int)
    requires
        cps_ok(cps, total),
        0 <= cur,
        0 <= ci <= cps.len(),
        forall|j: int| 0 <= j < ci ==> (#[trigger] cps[j]).0 <= cur,
        forall|j: int| ci <= j < cps.len() ==> (#[trigger] cps[j]).0 >= bound,
    ensures
        forall|t: int| cur <= t < bound ==> #[trigger] cohort_at(cps, t) == cohort_at(cps, cur),
{
    assert forall|t: int| cur <= t < bound implies
        #[trigger] cohort_at(cps, t) == cohort_at(cps, cur) by {
        if ci > 0 {
            lemma_cohort_at_run(cps, ci - 1, t);
            lemma_cohort_at_run(cps, ci - 1, cur);
        } else {
            assert forall|j: int| 0 <= j < cps.len() implies t < (#[trigger] cps[j]).0 by {
                assert(cps[j].0 >= bound);
            }
            lemma_cohort_at_below(cps, t);
            assert forall|j: int| 0 <= j < cps.len() implies cur < (#[trigger] cps[j]).0 by {
                assert(cps[j].0 >= bound);
            }
            lemma_cohort_at_below(cps, cur);
        }
    }
}

/// `rs` lists the runs of `lines` in order: contiguous, covering, nonempty,
/// and constant within each run.
pub open spec fn is_run_decomposition(rs: Seq<(LineNumber, LineNumber, CohortKey)>, lines: Seq<u64>) -> bool {
    &&& (rs.len() == 0 <==> lines.len() == 0)
    &&& forall|k: int| 0 <= k < rs.len() ==> (#[trigger] rs[k]).0 < rs[k].1 <= lines.len()
    &&& (rs.len() > 0 ==> rs[0].0 == 0 && rs.last().1 == lines.len())
    &&& forall|k: int| 0 < k < rs.len() ==> (#[trigger] rs[k]).0 == rs[k - 1].1
    &&& forall|k: int, i: int| #![trigger rs[k], lines[i]]
        0 <= k < rs.len() && rs[k].0 <= i < rs[k].1 ==> lines[i] == rs[k].2
}

/// The cohort of line `i` in the view of a well-formed blame.
pub open spec fn cohort_at_spec(fb: &FileBlame, i: int) -> CohortKey
    recommends
        0 <= i < fb@.len(),
{
    fb@[i]
}

/// On a well-formed compact encoding, the number of change points equals the
/// number of maximal runs of the expansion.
proof fn lemma_cps_len_is_runs(cps: Seq<(LineNumber, CohortKey)>, total: int)
    requires
        cps_ok(cps, total),
        cps_compact(cps),
    ensures
        cps.len() == runs(expand(cps, total)),
    decreases cps.len(),
{
    if cps.len() == 0 {
        assert(expand(cps, total) =~= Seq::<u64>::empty());
    } else {
        let key = cps.last().0;
        let c = cps.last().1;
        let dl = cps.drop_last();
        assert(cps_ok(dl, key as int)) by {
            assert forall|k: int| 0 <= k < dl.len() implies (#[trigger] dl[k]).0 < key as int by {
                assert(cps[k].0 < cps[cps.len() - 1].0);
            }
            if key as int > 0 {
                assert(cps[0].0 == 0 || cps.len() == 1);
                if cps.len() == 1 {
                    assert(cps[0].0 == 0);
                    assert(false);
                }
            }
            if key as int <= 0 {
                if dl.len() > 0 {
                    assert(cps[0].0 < cps[cps.len() - 1].0);
                }
            }
        }
        assert(cps_compact(dl)) by {
            assert forall|k: int| 0 < k < dl.len() implies (#[trigger] dl[k]).1 != dl[k - 1].1 by {
                assert(cps[k].1 != cps[k - 1].1);
            }
        }
        lemma_cps_len_is_runs(dl, key as int);
        let a = expand(dl, key as int);
        let rep = Seq::new((total - key) as nat, |i: int| c);
        assert(expand(cps, total) =~= a + rep) by {
            assert forall|i: int| 0 <= i < total implies
                cohort_at(cps, i) == (a + rep)[i] by {
                if i < key as int {
                    assert(cohort_at(cps, i) == cohort_at(dl, i));
                    assert((a + rep)[i] == a[i]);
                } else {
                    lemma_cohort_at_run(cps, cps.len() - 1, i);
                }
            }
        }
        if dl.len() == 0 {
            assert(a =~= Seq::<u64>::empty());
            lemma_runs_append_const(a, (total - key) as nat, c);
        } else {
            // the last line before `key` belongs to the previous run, whose
            // cohort differs from `c` by compactness
            assert(a.len() == key as int);
            assert(a.len() > 0) by {
                assert(dl[0].0 < key);
            }
            assert(a[key - 1] == cohort_at(dl, key - 1));
            lemma_cohort_at_run(dl, dl.len() - 1, key - 1);
            assert(a[key - 1] == dl.last().1);
            assert(dl.last().1 != c) by {
                assert(cps[cps.len() - 1].1 != cps[cps.len() - 2].1);
            }
            lemma_runs_append_const(a, (total - key) as nat, c);
        }
    }
}

/// Appending a nonempty constant run whose value differs from the last line
/// adds exactly one run.
proof fn lemma_runs_append_const(a: Seq<u64>, n: nat, c: u64)
    requires
        n > 0,
        a.len() > 0 ==> a.last() != c,
    ensures
        runs(a + Seq::new(n, |i: int| c)) == runs(a) + 1,
    decreases n,
{
    let rep = Seq::new(n, |i: int| c);
    let s = a + rep;
    if n == 1 {
        if a.len() == 0 {
            assert(s.len() == 1);
        } else {
            assert(s.drop_last() =~= a);
            assert(s[s.len() - 1] == c);
            assert(s[s.len() - 2] == a.last());
        }
    } else {
        lemma_runs_append_const(a, (n - 1) as nat, c);
        let s1 = a + Seq::new((n - 1) as nat, |i: int| c);
        assert(s.drop_last() =~= s1);
        assert(s[s.len() - 1] == c);
        assert(s[s.len() - 2] == c);
        assert(s.len() >= 2);
        assert(runs(s) == runs(s1));
    }
}

} // verus!
