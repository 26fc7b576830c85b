//! Blame state of the whole repository at one commit.
//!
//! A `RepositoryBlameSnapshot` maps each tracked path to its `FileBlame` and
//! keeps a running per-cohort line tally over all files.  It is mutated
//! through the operations below (driven by `Action` messages); after every
//! operation the running tally equals the per-cohort sum over all files.

use vstd::prelude::*;
use crate::actions::Action;
use crate::blame;
use crate::blame::{CohortKey, FileBlame, LineDiffs, LineNumber};
use crate::diffs;

verus! {

/// The mathematical content of the file table: path to per-line cohorts.
pub open spec fn file_map(files: Seq<(Vec<u8>, FileBlame)>) -> Map<Seq<u8>, Seq<u64>>
    decreases files.len(),
{
    if files.len() == 0 {
        Map::<Seq<u8>, Seq<u64>>::empty()
    } else {
        file_map(files.drop_last()).insert(files.last().0@, files.last().1@)
    }
}

pub open spec fn has_path(files: Seq<(Vec<u8>, FileBlame)>, p: Seq<u8>) -> bool {
    exists|k: int| 0 <= k < files.len() && (#[trigger] files[k]).0@ == p
}

pub open spec fn paths_unique(files: Seq<(Vec<u8>, FileBlame)>) -> bool {
    forall|k1: int, k2: int|
        0 <= k1 < k2 < files.len() ==> (#[trigger] files[k1]).0@ != (#[trigger] files[k2]).0@
}

/// Total number of lines attributed to cohort `c` over all files.
pub open spec fn files_count(files: Seq<(Vec<u8>, FileBlame)>, c: u64) -> int
    decreases files.len(),
{
    if files.len() == 0 {
        0
    } else {
        files_count(files.drop_last(), c) + blame::count_in(files.last().1@, c)
    }
}

/// Total number of lines over all files.
pub open spec fn files_total(files: Seq<(Vec<u8>, FileBlame)>) -> int
    decreases files.len(),
{
    if files.len() == 0 {
        0
    } else {
        files_total(files.drop_last()) + files.last().1@.len()
    }
}

/// The signed line count recorded for cohort `c`, or 0 when `c` has no entry.
pub open spec fn tally_lookup(stats: Seq<(CohortKey, i64)>, c: u64) -> int
    decreases stats.len(),
{
    if stats.len() == 0 {
        0
    } else if stats.last().0 == c {
        stats.last().1 as int
    } else {
        tally_lookup(stats.drop_last(), c)
    }
}

/// Sum of all recorded line counts.
pub open spec fn tally_sum(stats: Seq<(CohortKey, i64)>) -> int
    decreases stats.len(),
{
    if stats.len() == 0 {
        0
    } else {
        tally_sum(stats.drop_last()) + stats.last().1 as int
    }
}

// ---------------------------------------------------------------------------
// Lemmas about the file table.
// ---------------------------------------------------------------------------

pub proof fn lemma_file_map_props(files: Seq<(Vec<u8>, FileBlame)>)
    requires
        paths_unique(files),
    ensures
        forall|p: Seq<u8>| #[trigger] file_map(files).contains_key(p) <==> has_path(files, p),
        forall|k: int|
            0 <= k < files.len() ==> file_map(files)[(#[trigger] files[k]).0@] == files[k].1@,
    decreases files.len(),
{
    if files.len() > 0 {
        let dl = files.drop_last();
        assert(paths_unique(dl)) by {
            assert forall|k1: int, k2: int| 0 <= k1 < k2 < dl.len() implies
                (#[trigger] dl[k1]).0@ != (#[trigger] dl[k2]).0@ by {
                assert(files[k1].0@ != files[k2].0@);
            }
        }
        lemma_file_map_props(dl);
        assert forall|p: Seq<u8>| #[trigger] file_map(files).contains_key(p) implies
            has_path(files, p) by {
            if p == files.last().0@ {
                assert(files[files.len() - 1].0@ == p);
            } else {
                assert(file_map(dl).contains_key(p));
                assert(has_path(dl, p));
                let k = choose|k: int| 0 <= k < dl.len() && (#[trigger] dl[k]).0@ == p;
                assert(files[k].0@ == p);
            }
        }
        assert forall|p: Seq<u8>| has_path(files, p) implies
            #[trigger] file_map(files).contains_key(p) by {
            let k = choose|k: int| 0 <= k < files.len() && (#[trigger] files[k]).0@ == p;
            if k < files.len() - 1 {
                assert(dl[k].0@ == p);
                assert(has_path(dl, p));
            }
        }
        assert forall|k: int| 0 <= k < files.len() implies
            file_map(files)[(#[trigger] files[k]).0@] == files[k].1@ by {
            if k < files.len() - 1 {
                assert(dl[k] == files[k]);
                assert(files[k].0@ != files[files.len() - 1].0@);
            }
        }
    }
}

/// Removing entry `i` removes its path from the table and its lines from the
/// counts.
pub proof fn lemma_files_remove(files: Seq<(Vec<u8>, FileBlame)>, i: int)
    requires
        paths_unique(files),
        0 <= i < files.len(),
    ensures
        paths_unique(files.remove(i)),
        file_map(files.remove(i)) == file_map(files).remove(files[i].0@),
        forall|c: u64| #[trigger] files_count(files.remove(i), c)
            == files_count(files, c) - blame::count_in(files[i].1@, c),
        files_total(files.remove(i)) == files_total(files) - files[i].1@.len(),
    decreases files.len(),
{
    lemma_file_map_props(files);
    let r = files.remove(i);
    assert(paths_unique(r)) by {
        assert forall|k1: int, k2: int| 0 <= k1 < k2 < r.len() implies
            (#[trigger] r[k1]).0@ != (#[trigger] r[k2]).0@ by {
            let a1 = if k1 < i { k1 } else { k1 + 1 };
            let a2 = if k2 < i { k2 } else { k2 + 1 };
            assert(files[a1].0@ != files[a2].0@);
        }
    }
    if i == files.len() - 1 {
        assert(r =~= files.drop_last());
        assert(file_map(files) == file_map(r).insert(files[i].0@, files[i].1@));
        assert(file_map(r) =~= file_map(files).remove(files[i].0@)) by {
            lemma_file_map_props(r);
            assert(!has_path(r, files[i].0@)) by {
                if has_path(r, files[i].0@) {
                    let k = choose|k: int| 0 <= k < r.len() && (#[trigger] r[k]).0@ == files[i].0@;
                    assert(files[k].0@ == files[i].0@);
                }
            }
        }
        assert forall|c: u64| #[trigger] files_count(r, c)
            == files_count(files, c) - blame::count_in(files[i].1@, c) by {
            assert(files_count(files, c)
                == files_count(files.drop_last(), c) + blame::count_in(files.last().1@, c));
        }
        assert(files_total(files)
            == files_total(files.drop_last()) + files.last().1@.len());
    } else {
        let dl = files.drop_last();
        assert(paths_unique(dl)) by {
            assert forall|k1: int, k2: int| 0 <= k1 < k2 < dl.len() implies
                (#[trigger] dl[k1]).0@ != (#[trigger] dl[k2]).0@ by {
                assert(files[k1].0@ != files[k2].0@);
            }
        }
        assert(dl[i] == files[i]);
        lemma_files_remove(dl, i);
        assert(r =~= dl.remove(i).push(files.last()));
        assert(r.drop_last() =~= dl.remove(i));
        assert(r.last() == files.last());
        assert(file_map(r) == file_map(dl.remove(i)).insert(files.last().0@, files.last().1@));
        assert(file_map(r) =~= file_map(files).remove(files[i].0@)) by {
            assert(file_map(dl.remove(i)) == file_map(dl).remove(files[i].0@));
            assert(file_map(files) == file_map(dl).insert(files.last().0@, files.last().1@));
            assert(files.last().0@ != files[i].0@) by {
                assert(files[i].0@ != files[files.len() - 1].0@);
            }
        }
        assert forall|c: u64| #[trigger] files_count(r, c)
            == files_count(files, c) - blame::count_in(files[i].1@, c) by {
            assert(files_count(r, c)
                == files_count(r.drop_last(), c) + blame::count_in(r.last().1@, c));
            assert(files_count(dl.remove(i), c)
                == files_count(dl, c) - blame::count_in(dl[i].1@, c));
            assert(files_count(files, c)
                == files_count(dl, c) + blame::count_in(files.last().1@, c));
        }
        assert(files_total(r) == files_total(r.drop_last()) + r.last().1@.len());
        assert(files_total(files) == files_total(dl) + files.last().1@.len());
    }
}

/// Replacing the blame of entry `i` (keeping its path) adjusts table and
/// counts pointwise.
pub proof fn lemma_files_replace(files: Seq<(Vec<u8>, FileBlame)>, i: int, e: (Vec<u8>, FileBlame))
    requires
        paths_unique(files),
        0 <= i < files.len(),
        e.0@ == files[i].0@,
    ensures
        paths_unique(files.update(i, e)),
        file_map(files.update(i, e)) == file_map(files).insert(e.0@, e.1@),
        forall|c: u64| #[trigger] files_count(files.update(i, e), c)
            == files_count(files, c) - blame::count_in(files[i].1@, c) + blame::count_in(e.1@, c),
        files_total(files.update(i, e))
            == files_total(files) - files[i].1@.len() + e.1@.len(),
    decreases files.len(),
{
    let r = files.update(i, e);
    assert(paths_unique(r)) by {
        assert forall|k1: int, k2: int| 0 <= k1 < k2 < r.len() implies
            (#[trigger] r[k1]).0@ != (#[trigger] r[k2]).0@ by {
            assert(files[k1].0@ != files[k2].0@);
        }
    }
    if i == files.len() - 1 {
        assert(r.drop_last() =~= files.drop_last());
        assert(r.last() == e);
        assert(file_map(r) == file_map(files.drop_last()).insert(e.0@, e.1@));
        assert(file_map(files) == file_map(files.drop_last()).insert(files[i].0@, files[i].1@));
        assert(file_map(r) =~= file_map(files).insert(e.0@, e.1@));
        assert forall|c: u64| #[trigger] files_count(r, c)
            == files_count(files, c) - blame::count_in(files[i].1@, c)
                + blame::count_in(e.1@, c) by {
            assert(files_count(r, c)
                == files_count(r.drop_last(), c) + blame::count_in(r.last().1@, c));
            assert(files_count(files, c)
                == files_count(files.drop_last(), c) + blame::count_in(files.last().1@, c));
        }
        assert(files_total(r) == files_total(r.drop_last()) + r.last().1@.len());
        assert(files_total(files)
            == files_total(files.drop_last()) + files.last().1@.len());
    } else {
        let dl = files.drop_last();
        assert(paths_unique(dl)) by {
            assert forall|k1: int, k2: int| 0 <= k1 < k2 < dl.len() implies
                (#[trigger] dl[k1]).0@ != (#[trigger] dl[k2]).0@ by {
                assert(files[k1].0@ != files[k2].0@);
            }
        }
        assert(dl[i] == files[i]);
        lemma_files_replace(dl, i, e);
        assert(r.drop_last() =~= dl.update(i, e));
        assert(r.last() == files.last());
        assert(file_map(r) == file_map(dl.update(i, e)).insert(files.last().0@, files.last().1@));
        assert(file_map(files) == file_map(dl).insert(files.last().0@, files.last().1@));
        assert(file_map(r) =~= file_map(files).insert(e.0@, e.1@)) by {
            assert(files.last().0@ != files[i].0@) by {
                assert(files[i].0@ != files[files.len() - 1].0@);
            }
        }
        assert forall|c: u64| #[trigger] files_count(r, c)
            == files_count(files, c) - blame::count_in(files[i].1@, c)
                + blame::count_in(e.1@, c) by {
            assert(files_count(r, c)
                == files_count(r.drop_last(), c) + blame::count_in(r.last().1@, c));
            assert(files_count(dl.update(i, e), c)
                == files_count(dl, c) - blame::count_in(dl[i].1@, c)
                    + blame::count_in(e.1@, c));
            assert(files_count(files, c)
                == files_count(dl, c) + blame::count_in(files.last().1@, c));
        }
        assert(files_total(r) == files_total(r.drop_last()) + r.last().1@.len());
        assert(files_total(files) == files_total(dl) + files.last().1@.len());
    }
}

// ---------------------------------------------------------------------------
// Lemmas about the running tally.
// ---------------------------------------------------------------------------

pub open spec fn tally_keys_unique(stats: Seq<(CohortKey, i64)>) -> bool {
    forall|k1: int, k2: int|
        0 <= k1 < k2 < stats.len() ==> (#[trigger] stats[k1]).0 != (#[trigger] stats[k2]).0
}

proof fn lemma_tally_lookup_at(stats: Seq<(CohortKey, i64)>, i: int, c: u64)
    requires
        tally_keys_unique(stats),
        0 <= i < stats.len(),
        stats[i].0 == c,
    ensures
        tally_lookup(stats, c) == stats[i].1,
    decreases stats.len(),
{
    if i == stats.len() - 1 {
    } else {
        assert(stats.last().0 != c) by {
            assert(stats[i].0 != stats[stats.len() - 1].0);
        }
        assert(stats.drop_last()[i] == stats[i]);
        assert(tally_keys_unique(stats.drop_last())) by {
            assert forall|k1: int, k2: int| 0 <= k1 < k2 < stats.drop_last().len() implies
                (#[trigger] stats.drop_last()[k1]).0 != (#[trigger] stats.drop_last()[k2]).0 by {
                assert(stats[k1].0 != stats[k2].0);
            }
        }
        lemma_tally_lookup_at(stats.drop_last(), i, c);
    }
}

proof fn lemma_tally_lookup_absent(stats: Seq<(CohortKey, i64)>, c: u64)
    requires
        forall|j: int| 0 <= j < stats.len() ==> (#[trigger] stats[j]).0 != c,
    ensures
        tally_lookup(stats, c) == 0,
    decreases stats.len(),
{
    if stats.len() > 0 {
        lemma_tally_lookup_absent(stats.drop_last(), c);
    }
}

proof fn lemma_tally_lookup_update(stats: Seq<(CohortKey, i64)>, i: int, v: i64, c: u64)
    requires
        tally_keys_unique(stats),
        0 <= i < stats.len(),
        stats[i].0 == c,
    ensures
        tally_keys_unique(stats.update(i, (c, v))),
        forall|c2: u64| #[trigger] tally_lookup(stats.update(i, (c, v)), c2)
            == if c2 == c { v as int } else { tally_lookup(stats, c2) },
        tally_sum(stats.update(i, (c, v))) == tally_sum(stats) - stats[i].1 + v,
    decreases stats.len(),
{
    let r = stats.update(i, (c, v));
    assert(tally_keys_unique(r)) by {
        assert forall|k1: int, k2: int| 0 <= k1 < k2 < r.len() implies
            (#[trigger] r[k1]).0 != (#[trigger] r[k2]).0 by {
            assert(stats[k1].0 != stats[k2].0);
        }
    }
    if i == stats.len() - 1 {
        assert(r.last() == (c, v));
        assert(r.drop_last() =~= stats.drop_last());
        assert forall|c2: u64| #[trigger] tally_lookup(r, c2)
            == if c2 == c { v as int } else { tally_lookup(stats, c2) } by {
            if c2 != c {
                assert(stats.last().0 == c);
            }
        }
    } else {
        assert(stats.drop_last()[i] == stats[i]);
        assert(tally_keys_unique(stats.drop_last())) by {
            assert forall|k1: int, k2: int| 0 <= k1 < k2 < stats.drop_last().len() implies
                (#[trigger] stats.drop_last()[k1]).0 != (#[trigger] stats.drop_last()[k2]).0 by {
                assert(stats[k1].0 != stats[k2].0);
            }
        }
        lemma_tally_lookup_update(stats.drop_last(), i, v, c);
        assert(r.last() == stats.last());
        assert(r.drop_last() =~= stats.drop_last().update(i, (c, v)));
        assert forall|c2: u64| #[trigger] tally_lookup(r, c2)
            == if c2 == c { v as int } else { tally_lookup(stats, c2) } by {
            assert(tally_lookup(stats.drop_last().update(i, (c, v)), c2)
                == if c2 == c { v as int } else { tally_lookup(stats.drop_last(), c2) });
            if c2 == c {
                assert(stats.last().0 != c) by {
                    assert(stats[i].0 != stats[stats.len() - 1].0);
                }
            }
        }
    }
}

proof fn lemma_tally_push(stats: Seq<(CohortKey, i64)>, c: u64, v: i64)
    requires
        tally_keys_unique(stats),
        forall|j: int| 0 <= j < stats.len() ==> (#[trigger] stats[j]).0 != c,
    ensures
        tally_keys_unique(stats.push((c, v))),
        forall|c2: u64| #[trigger] tally_lookup(stats.push((c, v)), c2)
            == if c2 == c { v as int } else { tally_lookup(stats, c2) },
        tally_sum(stats.push((c, v))) == tally_sum(stats) + v,
{
    let r = stats.push((c, v));
    assert(r.drop_last() =~= stats);
    assert(r.last() == (c, v));
    assert(tally_keys_unique(r)) by {
        assert forall|k1: int, k2: int| 0 <= k1 < k2 < r.len() implies
            (#[trigger] r[k1]).0 != (#[trigger] r[k2]).0 by {
            if k2 < stats.len() {
                assert(stats[k1].0 != stats[k2].0);
            } else {
                assert(stats[k1].0 != c);
            }
        }
    }
}

/// Add `delta` lines of cohort `c` to the running tally, creating the entry
/// when it is missing.
fn add_tally(stats: &mut Vec<(CohortKey, i64)>, c: CohortKey, delta: i64)
    requires
        tally_keys_unique(old(stats)@),
        i64::MIN <= tally_lookup(old(stats)@, c) + delta <= i64::MAX,
    ensures
        tally_keys_unique(final(stats)@),
        forall|c2: u64| #[trigger] tally_lookup(final(stats)@, c2)
            == tally_lookup(old(stats)@, c2) + if c2 == c { delta as int } else { 0int },
        tally_sum(final(stats)@) == tally_sum(old(stats)@) + delta,
{
    let len = stats.len();
    let mut i: usize = 0;
    while i < len
        invariant
            len == stats@.len(),
            stats@ == old(stats)@,
            i <= len,
            tally_keys_unique(stats@),
            i64::MIN <= tally_lookup(stats@, c) + delta <= i64::MAX,
            forall|j: int| 0 <= j < i ==> (#[trigger] stats@[j]).0 != c,
        decreases len - i,
    {
        if stats[i].0 == c {
            proof {
                lemma_tally_lookup_at(stats@, i as int, c);
            }
            let v = stats[i].1;
            let ghost s0 = stats@;
            stats.set(i, (c, v + delta));
            proof {
                lemma_tally_lookup_update(s0, i as int, (v + delta) as i64, c);
            }
            return;
        }
        i = i + 1;
    }
    proof {
        lemma_tally_lookup_absent(stats@, c);
        lemma_tally_push(stats@, c, delta);
    }
    stats.push((c, delta));
}

// ---------------------------------------------------------------------------
// The snapshot.
// ---------------------------------------------------------------------------

/// Blame information for the entire repository at a specific commit, plus the
/// per-commit tallies collected so far.
pub struct RepositoryBlameSnapshot {
    pub commit_id: Vec<u8>,
    pub file_blames: Vec<(Vec<u8>, FileBlame)>,
    pub running_cohort_stats: Vec<(CohortKey, i64)>,
    pub commit_results: Vec<Vec<(CohortKey, i64)>>,
}

impl RepositoryBlameSnapshot {
    /// Every file blame is well formed, paths and tally keys are unique, and
    /// the running tally equals, cohort by cohort, the sum over all files.
    pub open spec fn wf(&self) -> bool {
        &&& paths_unique(self.file_blames@)
        &&& forall|k: int|
            0 <= k < self.file_blames@.len() ==> (#[trigger] self.file_blames@[k]).1.wf()
        &&& tally_keys_unique(self.running_cohort_stats@)
        &&& forall|c: u64| #[trigger] tally_lookup(self.running_cohort_stats@, c)
            == files_count(self.file_blames@, c)
    }

    /// The per-path view of the tracked files.
    pub open spec fn files(&self) -> Map<Seq<u8>, Seq<u64>> {
        file_map(self.file_blames@)
    }

    pub fn new(commit_id: Vec<u8>) -> (r: Self)
        ensures
            r.wf(),
            r.commit_id@ == commit_id@,
            r.files() == Map::<Seq<u8>, Seq<u64>>::empty(),
            r.running_cohort_stats@ == Seq::<(CohortKey, i64)>::empty(),
            r.commit_results@ == Seq::<Vec<(CohortKey, i64)>>::empty(),
    {
        RepositoryBlameSnapshot {
            commit_id,
            file_blames: Vec::new(),
            running_cohort_stats: Vec::new(),
            commit_results: Vec::new(),
        }
    }

    pub fn set_commit_id(&mut self, commit_id: Vec<u8>)
        requires
            old(self).wf(),
        ensures
            final(self).wf(),
            final(self).commit_id@ == commit_id@,
            final(self).file_blames@ == old(self).file_blames@,
            final(self).running_cohort_stats@ == old(self).running_cohort_stats@,
            final(self).commit_results@ == old(self).commit_results@,
    {
        self.commit_id = commit_id;
    }

    /// A copy of the running per-cohort tally.
    pub fn repository_cohort_stats(&self) -> (r: Vec<(CohortKey, i64)>)
        ensures
            r@ == self.running_cohort_stats@,
    {
        let n = self.running_cohort_stats.len();
        let mut r: Vec<(CohortKey, i64)> = Vec::new();
        let mut k: usize = 0;
        while k < n
            invariant
                n == self.running_cohort_stats@.len(),
                k <= n,
                r@ == self.running_cohort_stats@.take(k as int),
            decreases n - k,
        {
            let (c, v) = self.running_cohort_stats[k];
            r.push((c, v));
            proof {
                assert(r@ =~= self.running_cohort_stats@.take(k + 1));
            }
            k = k + 1;
        }
        proof {
            assert(r@ =~= self.running_cohort_stats@);
        }
        r
    }

    /// Index of the entry for `path`, if the path is tracked.
    fn find_file(&self, path: &Vec<u8>) -> (r: Option<usize>)
        ensures
            match r {
                Some(i) => i < self.file_blames@.len() && self.file_blames@[i as int].0@ == path@,
                None => !has_path(self.file_blames@, path@),
            },
    {
        let n = self.file_blames.len();
        let mut i: usize = 0;
        while i < n
            invariant
                n == self.file_blames@.len(),
                i <= n,
                forall|k: int| 0 <= k < i ==> (#[trigger] self.file_blames@[k]).0@ != path@,
            decreases n - i,
    {
            if vecs_equal(&self.file_blames[i].0, path) {
                return Some(i);
            }
            i = i + 1;
        }
        None
    }
}

impl RepositoryBlameSnapshot {
    /// Track a fresh file of `total_lines` lines, all attributed to `cohort`.
    pub fn add_file(&mut self, path: &Vec<u8>, total_lines: LineNumber, cohort: CohortKey)
        requires
            old(self).wf(),
            !has_path(old(self).file_blames@, path@),
            files_total(old(self).file_blames@) + total_lines <= i64::MAX,
        ensures
            final(self).wf(),
            final(self).files()
                == old(self).files().insert(path@, Seq::new(total_lines as nat, |i: int| cohort)),
            forall|c: u64| #[trigger] tally_lookup(final(self).running_cohort_stats@, c)
                == tally_lookup(old(self).running_cohort_stats@, c)
                    + if c == cohort { total_lines as int } else { 0int },
            final(self).commit_id@ == old(self).commit_id@,
            final(self).commit_results@ == old(self).commit_results@,
    {
        let blame = FileBlame::new(total_lines, cohort);
        let p = copy_bytes(path);
        let entry = (p, blame);
        let ghost files0 = self.file_blames@;
        proof {
            lemma_files_push(files0, entry);
            lemma_files_count_nonneg(files0, cohort);
            lemma_tally_lookup_bounds(self.running_cohort_stats@, cohort);
        }
        self.file_blames.push(entry);
        proof {
            blame::lemma_count_in_const(total_lines as nat, cohort, cohort);
        }
        add_tally(&mut self.running_cohort_stats, cohort, total_lines as i64);
        proof {
            assert forall|c: u64| #[trigger] tally_lookup(self.running_cohort_stats@, c)
                == files_count(self.file_blames@, c) by {
                blame::lemma_count_in_const(total_lines as nat, cohort, c);
            }
        }
    }

    /// Stop tracking `path`, removing its lines from the running tally.
    pub fn delete_file(&mut self, path: &Vec<u8>)
        requires
            old(self).wf(),
            has_path(old(self).file_blames@, path@),
        ensures
            final(self).wf(),
            final(self).files() == old(self).files().remove(path@),
            forall|c: u64| #[trigger] tally_lookup(final(self).running_cohort_stats@, c)
                == tally_lookup(old(self).running_cohort_stats@, c)
                    - blame::count_in(old(self).files()[path@], c),
            final(self).commit_id@ == old(self).commit_id@,
            final(self).commit_results@ == old(self).commit_results@,
    {
        let found = self.find_file(path);
        if let Some(i) = found {
            let ghost files0 = self.file_blames@;
            proof {
                lemma_file_map_props(files0);
                lemma_files_remove(files0, i as int);
            }
            let (_p, blame) = self.file_blames.remove(i);
            let bstats = blame.cohort_stats();
            proof {
                assert(blame@.len() <= u32::MAX) by {
                    assert(files0[i as int].1.wf());
                }
            }
            subtract_file_stats(
                &mut self.running_cohort_stats,
                &bstats,
                Ghost(blame@),
                Ghost(self.file_blames@),
            );
        } else {
            proof {
                assert(false);
            }
        }
    }

    /// Move the blame of `old_path` to `new_path`; the running tally is left
    /// pointwise unchanged.
    pub fn rename_file(&mut self, old_path: Vec<u8>, new_path: Vec<u8>) -> (r: Result<(), String>)
        requires
            old(self).wf(),
            has_path(old(self).file_blames@, old_path@)
                ==> (!has_path(old(self).file_blames@, new_path@) || new_path@ == old_path@),
        ensures
            final(self).wf(),
            r is Ok <==> has_path(old(self).file_blames@, old_path@),
            r is Ok ==> final(self).files()
                == old(self).files().remove(old_path@).insert(
                    new_path@,
                    old(self).files()[old_path@],
                ),
            r is Err ==> final(self).files() == old(self).files()
                && final(self).file_blames@ == old(self).file_blames@,
            r matches Err(m) ==> m@ == "File not found for rename"@,
            final(self).running_cohort_stats@ == old(self).running_cohort_stats@,
            final(self).commit_id@ == old(self).commit_id@,
            final(self).commit_results@ == old(self).commit_results@,
    {
        let found = self.find_file(&old_path);
        if let Some(i) = found {
            let ghost files0 = self.file_blames@;
            proof {
                lemma_file_map_props(files0);
                lemma_files_remove(files0, i as int);
            }
            let (_p, blame) = self.file_blames.remove(i);
            let ghost files1 = self.file_blames@;
            let ghost entry_view = blame@;
            proof {
                assert(!has_path(files1, new_path@)) by {
                    if has_path(files1, new_path@) {
                        let k = choose|k: int|
                            0 <= k < files1.len() && (#[trigger] files1[k]).0@ == new_path@;
                        let a = if k < i as int { k } else { k + 1 };
                        assert(files0[a].0@ == new_path@);
                        if new_path@ == old_path@ {
                            assert(files0[a].0@ == files0[i as int].0@);
                            assert(a != i as int);
                        } else {
                            assert(has_path(files0, new_path@));
                        }
                    }
                }
                lemma_files_push(files1, (new_path, blame));
            }
            self.file_blames.push((new_path, blame));
            proof {
                assert forall|c: u64| #[trigger] tally_lookup(self.running_cohort_stats@, c)
                    == files_count(self.file_blames@, c) by {
                    assert(files_count(files1, c)
                        == files_count(files0, c) - blame::count_in(entry_view, c));
                }
            }
            Ok(())
        } else {
            Err("File not found for rename".to_owned())
        }
    }

    /// Apply a batch of line diffs to the blame of `path` and adjust the
    /// running tally by the difference.
    pub fn modify_file(&mut self, path: &Vec<u8>, line_diffs: LineDiffs)
        requires
            old(self).wf(),
            has_path(old(self).file_blames@, path@),
            diffs::diffs_wf(
                diffs::diff_views(line_diffs@),
                old(self).files()[path@].len() as int,
            ),
            diffs::pairwise_disjoint(diffs::diff_views(line_diffs@)),
            old(self).files()[path@].len()
                + diffs::sum_inserts(diffs::diff_views(line_diffs@)) <= u32::MAX,
            files_total(old(self).file_blames@)
                + diffs::sum_inserts(diffs::diff_views(line_diffs@)) <= i64::MAX,
        ensures
            final(self).wf(),
            final(self).files() == old(self).files().insert(
                path@,
                diffs::apply_diffs(old(self).files()[path@], diffs::diff_views(line_diffs@)),
            ),
            forall|c: u64| #[trigger] tally_lookup(final(self).running_cohort_stats@, c)
                == tally_lookup(old(self).running_cohort_stats@, c)
                    - blame::count_in(old(self).files()[path@], c)
                    + blame::count_in(
                        diffs::apply_diffs(
                            old(self).files()[path@],
                            diffs::diff_views(line_diffs@),
                        ),
                        c,
                    ),
            final(self).commit_id@ == old(self).commit_id@,
            final(self).commit_results@ == old(self).commit_results@,
    {
        let found = self.find_file(path);
        if let Some(i) = found {
            let ghost files0 = self.file_blames@;
            proof {
                lemma_file_map_props(files0);
                lemma_files_remove(files0, i as int);
            }
            let (p, blame) = self.file_blames.remove(i);
            let ghost files1 = self.file_blames@;
            proof {
                assert(files0[i as int].1.wf());
                assert(blame@ == old(self).files()[path@]);
            }
            let new_blame = blame.apply_line_diffs(line_diffs);
            let bstats = blame.cohort_stats();
            subtract_file_stats(
                &mut self.running_cohort_stats,
                &bstats,
                Ghost(blame@),
                Ghost(files1),
            );
            let nstats = new_blame.cohort_stats();
            proof {
                diffs::lemma_sort_diffs_basic(diffs::diff_views(line_diffs@));
                diffs::lemma_sort_diffs_wf(
                    diffs::diff_views(line_diffs@),
                    blame@.len() as int,
                );
                diffs::lemma_sort_diffs_disjoint(diffs::diff_views(line_diffs@));
                diffs::lemma_sorted_disjoint_chained(
                    diffs::sort_diffs(diffs::diff_views(line_diffs@)),
                );
                diffs::lemma_target_tail(
                    blame@,
                    diffs::sort_diffs(diffs::diff_views(line_diffs@)),
                );
                diffs::lemma_off_bounds(
                    diffs::sort_diffs(diffs::diff_views(line_diffs@)),
                    blame@.len() as int,
                    diffs::sort_diffs(diffs::diff_views(line_diffs@)).len() as int,
                );
                diffs::lemma_sort_sum_inserts(diffs::diff_views(line_diffs@));
                assert(new_blame@.len()
                    <= blame@.len() + diffs::sum_inserts(diffs::diff_views(line_diffs@)));
                assert(files_total(files1) == files_total(files0) - blame@.len());
            }
            add_file_stats(
                &mut self.running_cohort_stats,
                &nstats,
                Ghost(new_blame@),
                Ghost(files1),
            );
            let ghost entry = (p, new_blame);
            proof {
                lemma_files_push(files1, entry);
                assert(entry.0@ == path@);
            }
            self.file_blames.push((p, new_blame));
            proof {
                assert(self.files() =~= old(self).files().insert(
                    path@,
                    diffs::apply_diffs(old(self).files()[path@], diffs::diff_views(line_diffs@)),
                )) by {
                    assert(file_map(files1) == file_map(files0).remove(path@));
                }
            }
        } else {
            proof {
                assert(false);
            }
        }
    }
}

impl RepositoryBlameSnapshot {
    /// What an action demands of the snapshot it is applied to.
    pub open spec fn action_ok(&self, action: Action) -> bool {
        match action {
            Action::AddFile { path, total_lines, cohort } => {
                &&& !has_path(self.file_blames@, path@)
                &&& files_total(self.file_blames@) + total_lines <= i64::MAX
            },
            Action::DeleteFile { path } => has_path(self.file_blames@, path@),
            Action::RenameFile { old_path, new_path } => {
                &&& has_path(self.file_blames@, old_path@)
                &&& (!has_path(self.file_blames@, new_path@) || new_path@ == old_path@)
            },
            Action::ModifyFile { path, line_diffs } => {
                &&& has_path(self.file_blames@, path@)
                &&& diffs::diffs_wf(
                    diffs::diff_views(line_diffs@),
                    self.files()[path@].len() as int,
                )
                &&& diffs::pairwise_disjoint(diffs::diff_views(line_diffs@))
                &&& self.files()[path@].len()
                    + diffs::sum_inserts(diffs::diff_views(line_diffs@)) <= u32::MAX
                &&& files_total(self.file_blames@)
                    + diffs::sum_inserts(diffs::diff_views(line_diffs@)) <= i64::MAX
            },
            Action::FinishCommit => true,
            Action::SetCommitId(_) => true,
        }
    }

    /// How the snapshot after an action relates to the one before.
    pub open spec fn action_applied(pre: Self, post: Self, action: Action) -> bool {
        match action {
            Action::AddFile { path, total_lines, cohort } => {
                &&& post.files() == pre.files().insert(
                    path@,
                    Seq::new(total_lines as nat, |i: int| cohort),
                )
                &&& post.commit_results@ == pre.commit_results@
                &&& post.commit_id@ == pre.commit_id@
            },
            Action::DeleteFile { path } => {
                &&& post.files() == pre.files().remove(path@)
                &&& post.commit_results@ == pre.commit_results@
                &&& post.commit_id@ == pre.commit_id@
            },
            Action::RenameFile { old_path, new_path } => {
                &&& post.files() == pre.files().remove(old_path@).insert(
                    new_path@,
                    pre.files()[old_path@],
                )
                &&& post.running_cohort_stats@ == pre.running_cohort_stats@
                &&& post.commit_results@ == pre.commit_results@
                &&& post.commit_id@ == pre.commit_id@
            },
            Action::ModifyFile { path, line_diffs } => {
                &&& post.files() == pre.files().insert(
                    path@,
                    diffs::apply_diffs(pre.files()[path@], diffs::diff_views(line_diffs@)),
                )
                &&& post.commit_results@ == pre.commit_results@
                &&& post.commit_id@ == pre.commit_id@
            },
            Action::FinishCommit => {
                &&& post.files() == pre.files()
                &&& post.running_cohort_stats@ == pre.running_cohort_stats@
                &&& post.commit_id@ == pre.commit_id@
                &&& post.commit_results@.len() == pre.commit_results@.len() + 1
                &&& post.commit_results@.last()@ == pre.running_cohort_stats@
                &&& forall|k: int|
                    0 <= k < pre.commit_results@.len()
                        ==> #[trigger] post.commit_results@[k] == pre.commit_results@[k]
            },
            Action::SetCommitId(id) => {
                &&& post.files() == pre.files()
                &&& post.running_cohort_stats@ == pre.running_cohort_stats@
                &&& post.commit_results@ == pre.commit_results@
                &&& post.commit_id@ == id@
            },
        }
    }

    /// Apply one mutation message.
    pub fn handle_action(&mut self, action: Action)
        requires
            old(self).wf(),
            old(self).action_ok(action),
        ensures
            final(self).wf(),
            Self::action_applied(*old(self), *final(self), action),
    {
        match action {
            Action::AddFile { path, total_lines, cohort } => {
                self.add_file(&path, total_lines, cohort);
            },
            Action::DeleteFile { path } => {
                self.delete_file(&path);
            },
            Action::RenameFile { old_path, new_path } => {
                let r = self.rename_file(old_path, new_path);
                proof {
                    assert(r is Ok);
                }
            },
            Action::ModifyFile { path, line_diffs } => {
                self.modify_file(&path, line_diffs);
            },
            Action::FinishCommit => {
                let stats = self.repository_cohort_stats();
                self.commit_results.push(stats);
            },
            Action::SetCommitId(id) => {
                self.set_commit_id(id);
            },
        }
    }
}

/// 0 <= files_count <= files_total, for every cohort.
pub proof fn lemma_files_count_nonneg(files: Seq<(Vec<u8>, FileBlame)>, c: u64)
    ensures
        0 <= files_count(files, c) <= files_total(files),
    decreases files.len(),
{
    if files.len() > 0 {
        lemma_files_count_nonneg(files.drop_last(), c);
        blame::lemma_count_in_le_len(files.last().1@, c);
    }
}

/// Every recorded tally value is a machine integer.
pub proof fn lemma_tally_lookup_bounds(stats: Seq<(CohortKey, i64)>, c: u64)
    ensures
        i64::MIN <= tally_lookup(stats, c) <= i64::MAX,
    decreases stats.len(),
{
    if stats.len() > 0 {
        lemma_tally_lookup_bounds(stats.drop_last(), c);
    }
}

/// Remove one file's per-cohort counts from the running tally.  `files` is
/// the file table without the file; the tally starts as the counts of
/// `files` plus the file's own, and ends as the counts of `files` alone.
fn subtract_file_stats(
    running: &mut Vec<(CohortKey, i64)>,
    bstats: &Vec<(CohortKey, u64)>,
    Ghost(fview): Ghost<Seq<u64>>,
    Ghost(files): Ghost<Seq<(Vec<u8>, FileBlame)>>,
)
    requires
        tally_keys_unique(old(running)@),
        blame::stats_complete(bstats@, fview),
        fview.len() <= u32::MAX,
        forall|c: u64| #[trigger] tally_lookup(old(running)@, c)
            == files_count(files, c) + blame::count_in(fview, c),
    ensures
        tally_keys_unique(final(running)@),
        forall|c: u64| #[trigger] tally_lookup(final(running)@, c) == files_count(files, c),
{
    let n = bstats.len();
    let mut k: usize = 0;
    while k < n
        invariant
            n == bstats@.len(),
            k <= n,
            tally_keys_unique(running@),
            blame::stats_complete(bstats@, fview),
            fview.len() <= u32::MAX,
            forall|c: u64| #[trigger] tally_lookup(running@, c)
                == files_count(files, c) + blame::count_in(fview, c)
                    - blame::stats_lookup(bstats@.take(k as int), c),
        decreases n - k,
    {
        let (c, v) = bstats[k];
        proof {
            assert(bstats@[k as int] == (c, v));
            assert forall|j: int| 0 <= j < k implies (#[trigger] bstats@.take(k as int)[j]).0 != c by {
                assert(bstats@[j].0 != bstats@[k as int].0);
            }
            blame::lemma_stats_lookup_absent(bstats@.take(k as int), c);
            blame::lemma_stats_lookup_at(bstats@, k as int, c);
            blame::lemma_count_in_le_len(fview, c);
            lemma_files_count_nonneg(files, c);
            lemma_tally_lookup_bounds(running@, c);
            assert(v == blame::count_in(fview, c));
        }
        add_tally(running, c, -(v as i64));
        proof {
            assert(bstats@.take(k + 1).drop_last() =~= bstats@.take(k as int));
            assert(bstats@.take(k + 1).last() == (c, v));
        }
        k = k + 1;
    }
    proof {
        assert(bstats@.take(n as int) =~= bstats@);
    }
}

/// Add one file's per-cohort counts to the running tally.  `files` is the
/// file table without the file; the tally starts as the counts of `files`
/// and ends as those counts plus the file's own.
fn add_file_stats(
    running: &mut Vec<(CohortKey, i64)>,
    bstats: &Vec<(CohortKey, u64)>,
    Ghost(fview): Ghost<Seq<u64>>,
    Ghost(files): Ghost<Seq<(Vec<u8>, FileBlame)>>,
)
    requires
        tally_keys_unique(old(running)@),
        blame::stats_complete(bstats@, fview),
        fview.len() <= u32::MAX,
        forall|c: u64| #[trigger] tally_lookup(old(running)@, c) == files_count(files, c),
        files_total(files) + fview.len() <= i64::MAX,
    ensures
        tally_keys_unique(final(running)@),
        forall|c: u64| #[trigger] tally_lookup(final(running)@, c)
            == files_count(files, c) + blame::count_in(fview, c),
{
    let n = bstats.len();
    let mut k: usize = 0;
    while k < n
        invariant
            n == bstats@.len(),
            k <= n,
            tally_keys_unique(running@),
            blame::stats_complete(bstats@, fview),
            fview.len() <= u32::MAX,
            files_total(files) + fview.len() <= i64::MAX,
            forall|c: u64| #[trigger] tally_lookup(running@, c)
                == files_count(files, c) + blame::stats_lookup(bstats@.take(k as int), c),
        decreases n - k,
    {
        let (c, v) = bstats[k];
        proof {
            assert(bstats@[k as int] == (c, v));
            assert forall|j: int| 0 <= j < k implies (#[trigger] bstats@.take(k as int)[j]).0 != c by {
                assert(bstats@[j].0 != bstats@[k as int].0);
            }
            blame::lemma_stats_lookup_absent(bstats@.take(k as int), c);
            blame::lemma_stats_lookup_at(bstats@, k as int, c);
            blame::lemma_count_in_le_len(fview, c);
            lemma_files_count_nonneg(files, c);
            lemma_tally_lookup_bounds(running@, c);
            assert(v == blame::count_in(fview, c));
        }
        add_tally(running, c, v as i64);
        proof {
            assert(bstats@.take(k + 1).drop_last() =~= bstats@.take(k as int));
            assert(bstats@.take(k + 1).last() == (c, v));
        }
        k = k + 1;
    }
    proof {
        assert(bstats@.take(n as int) =~= bstats@);
    }
}

impl RepositoryBlameSnapshot {
    /// Total line count over all tracked files, or `None` when it does not
    /// fit a signed 64-bit count.
    fn total_tracked_lines(&self) -> (r: Option<i64>)
        ensures
            r matches Some(t) ==> t as int == files_total(self.file_blames@),
            r is None ==> files_total(self.file_blames@) > i64::MAX,
    {
        let n = self.file_blames.len();
        let mut acc: i64 = 0;
        let mut k: usize = 0;
        proof {
            assert(self.file_blames@.take(0) =~= Seq::<(Vec<u8>, FileBlame)>::empty());
        }
        while k < n
            invariant
                n == self.file_blames@.len(),
                k <= n,
                0 <= acc,
                acc as int == files_total(self.file_blames@.take(k as int)),
            decreases n - k,
        {
            let t = self.file_blames[k].1.total_lines();
            proof {
                assert(self.file_blames@.take(k + 1).drop_last() =~= self.file_blames@.take(k as int));
                assert(self.file_blames@.take(k + 1).last() == self.file_blames@[k as int]);
            }
            if t as i64 > i64::MAX - acc {
                proof {
                    lemma_files_total_take_le(self.file_blames@, k + 1);
                }
                return None;
            }
            acc = acc + t as i64;
            k = k + 1;
        }
        proof {
            assert(self.file_blames@.take(n as int) =~= self.file_blames@);
        }
        Some(acc)
    }

    /// Exactly when `action_allowed` accepts an action: the path exists (or,
    /// for an addition, is fresh), a modification's diff batch is acceptable
    /// for the file it targets, and the repository stays within a signed
    /// 64-bit line count.
    pub open spec fn action_accepted(&self, action: Action) -> bool {
        match action {
            Action::AddFile { path, total_lines, cohort } => {
                &&& !has_path(self.file_blames@, path@)
                &&& files_total(self.file_blames@) + total_lines <= i64::MAX
            },
            Action::DeleteFile { path } => has_path(self.file_blames@, path@),
            Action::RenameFile { old_path, new_path } => {
                &&& has_path(self.file_blames@, old_path@)
                &&& (new_path@ == old_path@ || !has_path(self.file_blames@, new_path@))
            },
            Action::ModifyFile { path, line_diffs } => {
                &&& has_path(self.file_blames@, path@)
                &&& diffs::batch_accepted(
                    diffs::diff_views(line_diffs@),
                    self.files()[path@].len() as int,
                )
                &&& files_total(self.file_blames@)
                    + diffs::sum_inserts(diffs::diff_views(line_diffs@)) <= i64::MAX
            },
            Action::FinishCommit => true,
            Action::SetCommitId(_) => true,
        }
    }

    /// Whether `handle_action` accepts `action` on this snapshot — exactly
    /// `action_accepted`.  The walk checks every incoming action with this
    /// before applying it; a refused action signals a desynchronized
    /// upstream.
    pub fn action_allowed(&self, action: &Action) -> (r: bool)
        requires
            self.wf(),
        ensures
            r == self.action_accepted(*action),
            r ==> self.action_ok(*action),
    {
        match action {
            Action::AddFile { path, total_lines, cohort: _ } => {
                if self.find_file(path).is_some() {
                    return false;
                }
                match self.total_tracked_lines() {
                    Some(t) => {
                        proof {
                            lemma_files_count_nonneg(self.file_blames@, 0);
                        }
                        *total_lines as i64 <= i64::MAX - t
                    },
                    None => false,
                }
            },
            Action::DeleteFile { path } => self.find_file(path).is_some(),
            Action::RenameFile { old_path, new_path } => {
                if self.find_file(old_path).is_none() {
                    return false;
                }
                if vecs_equal(new_path, old_path) {
                    return true;
                }
                self.find_file(new_path).is_none()
            },
            Action::ModifyFile { path, line_diffs } => {
                let idx = match self.find_file(path) {
                    Some(i) => i,
                    None => {
                        return false;
                    },
                };
                let total = self.file_blames[idx].1.total_lines();
                proof {
                    lemma_file_map_props(self.file_blames@);
                    assert(self.files()[path@] == self.file_blames@[idx as int].1@);
                }
                let sum = match line_diffs_allowed(line_diffs, total) {
                    Some(s) => s,
                    None => {
                        return false;
                    },
                };
                proof {
                    diffs::lemma_batch_accepted_ok(
                        diffs::diff_views(line_diffs@),
                        total as int,
                    );
                }
                match self.total_tracked_lines() {
                    Some(t) => {
                        proof {
                            lemma_files_count_nonneg(self.file_blames@, 0);
                        }
                        sum as i64 <= i64::MAX - t
                    },
                    None => false,
                }
            },
            Action::FinishCommit => true,
            Action::SetCommitId(_) => true,
        }
    }

    /// Apply an action after checking its preconditions.  An action is
    /// applied exactly when `action_accepted` holds of it, and `true`
    /// returned; one the snapshot must refuse — an unknown or duplicate
    /// path, an ill-formed diff batch, an oversized file — leaves the
    /// snapshot unchanged and returns `false`.
    pub fn try_handle_action(&mut self, action: Action) -> (r: bool)
        requires
            old(self).wf(),
        ensures
            final(self).wf(),
            r == old(self).action_accepted(action),
            r ==> Self::action_applied(*old(self), *final(self), action),
            !r ==> *final(self) == *old(self),
    {
        let ok = self.action_allowed(&action);
        if ok {
            self.handle_action(action);
            true
        } else {
            false
        }
    }
}

/// A prefix never holds more lines than the whole table.
proof fn lemma_files_total_take_le(files: Seq<(Vec<u8>, FileBlame)>, j: int)
    requires
        0 <= j <= files.len(),
    ensures
        files_total(files.take(j)) <= files_total(files),
    decreases files.len() - j,
{
    if j == files.len() {
        assert(files.take(j) =~= files);
    } else {
        lemma_files_total_take_le(files, j + 1);
        assert(files.take(j + 1).drop_last() =~= files.take(j));
        assert(files.take(j + 1).last() == files[j]);
    }
}

/// Check a batch of line diffs against a file of `total` lines: ranges
/// proper and in bounds, deletes chained in the given order (a tied start
/// only after a pure insertion), and the inserted lines bounded so that the
/// new file still fits in line numbers.  Returns the total number of inserted
/// lines.
fn line_diffs_allowed(line_diffs: &LineDiffs, total: u32) -> (r: Option<u32>)
    ensures
        r is Some <==> diffs::batch_accepted(diffs::diff_views(line_diffs@), total as int),
        r matches Some(s) ==> s as int == diffs::sum_inserts(diffs::diff_views(line_diffs@)),
{
    let n = line_diffs.len();
    let ghost ds = diffs::diff_views(line_diffs@);
    let mut sum: u64 = 0;
    let mut k: usize = 0;
    while k < n
        invariant
            n == line_diffs@.len(),
            ds == diffs::diff_views(line_diffs@),
            ds.len() == n,
            k <= n,
            forall|j: int| 0 <= j < k ==> diffs::diff_wf(#[trigger] ds[j], total as int),
            forall|j: int| 0 <= j < k - 1 ==> (#[trigger] ds[j]).d1 <= ds[j + 1].d0,
            forall|j: int|
                0 <= j < k - 1 && (#[trigger] ds[j]).d0 == ds[j + 1].d0
                    ==> ds[j + 1].d1 == ds[j + 1].d0,
            sum as int == diffs::sum_ins_to(ds, k as int),
            sum <= u32::MAX,
        decreases n - k,
    {
        let d0 = line_diffs[k].0.start;
        let d1 = line_diffs[k].0.end;
        let i0 = line_diffs[k].1.start;
        let i1 = line_diffs[k].1.end;
        proof {
            assert(ds[k as int] == diffs::dv(line_diffs@[k as int]));
        }
        if d0 > d1 || d1 > total || i0 > i1 {
            proof {
                assert(!diffs::batch_accepted(ds, total as int)) by {
                    if diffs::batch_accepted(ds, total as int) {
                        assert(diffs::diff_wf(ds[k as int], total as int));
                    }
                }
            }
            return None;
        }
        if k > 0 {
            let p0 = line_diffs[k - 1].0.start;
            let p1 = line_diffs[k - 1].0.end;
            proof {
                assert(ds[k - 1] == diffs::dv(line_diffs@[k - 1]));
            }
            if p1 > d0 {
                proof {
                    assert(!diffs::batch_accepted(ds, total as int)) by {
                        if diffs::batch_accepted(ds, total as int) {
                            assert(ds[k - 1].d1 <= ds[k as int].d0);
                        }
                    }
                }
                return None;
            }
            if p0 == d0 && d1 != d0 {
                proof {
                    assert(!diffs::batch_accepted(ds, total as int)) by {
                        if diffs::batch_accepted(ds, total as int) {
                            assert(ds[k as int].d1 == ds[k as int].d0);
                        }
                    }
                }
                return None;
            }
        }
        let ins = i1 - i0;
        sum = sum + ins as u64;
        if sum > u32::MAX as u64 {
            proof {
                assert(sum as int == diffs::sum_ins_to(ds, k as int + 1));
                assert(!diffs::batch_accepted(ds, total as int)) by {
                    if diffs::batch_accepted(ds, total as int) {
                        assert forall|j: int| 0 <= j < ds.len() implies
                            (#[trigger] ds[j]).ins >= 0 by {
                            assert(diffs::diff_wf(ds[j], total as int));
                        }
                        diffs::lemma_sum_ins_to_mono(ds, k as int + 1, ds.len() as int);
                        assert(diffs::sum_inserts(ds) >= diffs::sum_ins_to(ds, k as int + 1));
                        assert(total + diffs::sum_inserts(ds) <= u32::MAX);
                    }
                }
            }
            return None;
        }
        k = k + 1;
    }
    if total as u64 + sum > u32::MAX as u64 {
        proof {
            assert(sum as int == diffs::sum_inserts(ds));
            assert(!diffs::batch_accepted(ds, total as int));
        }
        return None;
    }
    proof {
        assert(sum as int == diffs::sum_inserts(ds));
        assert(diffs::batch_accepted(ds, total as int));
    }
    Some(sum as u32)
}

// ---------------------------------------------------------------------------
// Conservation: the running tally sums to the total line count.
// ---------------------------------------------------------------------------

/// Number of lines of `lines` counted through the tally's keys.
pub open spec fn sum_counts(stats: Seq<(CohortKey, i64)>, lines: Seq<u64>) -> int
    decreases stats.len(),
{
    if stats.len() == 0 {
        0
    } else {
        sum_counts(stats.drop_last(), lines) + blame::count_in(lines, stats.last().0)
    }
}

/// How many tally entries carry cohort `c`.
pub open spec fn sum_ind(stats: Seq<(CohortKey, i64)>, c: u64) -> int
    decreases stats.len(),
{
    if stats.len() == 0 {
        0
    } else {
        sum_ind(stats.drop_last(), c) + if stats.last().0 == c { 1int } else { 0int }
    }
}

/// Total line count of all files, counted through the tally's keys.
pub open spec fn sum_files_counts(
    stats: Seq<(CohortKey, i64)>,
    files: Seq<(Vec<u8>, FileBlame)>,
) -> int
    decreases stats.len(),
{
    if stats.len() == 0 {
        0
    } else {
        sum_files_counts(stats.drop_last(), files) + files_count(files, stats.last().0)
    }
}

proof fn lemma_sum_ind_unique(stats: Seq<(CohortKey, i64)>, c: u64)
    requires
        tally_keys_unique(stats),
    ensures
        sum_ind(stats, c) == if exists|k: int|
            0 <= k < stats.len() && (#[trigger] stats[k]).0 == c { 1int } else { 0int },
    decreases stats.len(),
{
    if stats.len() > 0 {
        let dl = stats.drop_last();
        assert(tally_keys_unique(dl)) by {
            assert forall|k1: int, k2: int| 0 <= k1 < k2 < dl.len() implies
                (#[trigger] dl[k1]).0 != (#[trigger] dl[k2]).0 by {
                assert(stats[k1].0 != stats[k2].0);
            }
        }
        lemma_sum_ind_unique(dl, c);
        if stats.last().0 == c {
            assert(!exists|k: int| 0 <= k < dl.len() && (#[trigger] dl[k]).0 == c) by {
                if exists|k: int| 0 <= k < dl.len() && (#[trigger] dl[k]).0 == c {
                    let k = choose|k: int| 0 <= k < dl.len() && (#[trigger] dl[k]).0 == c;
                    assert(stats[k].0 != stats[stats.len() - 1].0);
                }
            }
            assert(stats[stats.len() - 1].0 == c);
        } else {
            if exists|k: int| 0 <= k < dl.len() && (#[trigger] dl[k]).0 == c {
                let k = choose|k: int| 0 <= k < dl.len() && (#[trigger] dl[k]).0 == c;
                assert(stats[k].0 == c);
            }
            if exists|k: int| 0 <= k < stats.len() && (#[trigger] stats[k]).0 == c {
                let k = choose|k: int| 0 <= k < stats.len() && (#[trigger] stats[k]).0 == c;
                assert(k < dl.len());
                assert(dl[k].0 == c);
            }
        }
    }
}

proof fn lemma_sum_counts_line(stats: Seq<(CohortKey, i64)>, lines: Seq<u64>)
    requires
        lines.len() > 0,
    ensures
        sum_counts(stats, lines)
            == sum_counts(stats, lines.drop_last()) + sum_ind(stats, lines.last()),
    decreases stats.len(),
{
    if stats.len() > 0 {
        lemma_sum_counts_line(stats.drop_last(), lines);
    }
}

proof fn lemma_sum_counts_empty(stats: Seq<(CohortKey, i64)>)
    ensures
        sum_counts(stats, Seq::<u64>::empty()) == 0,
    decreases stats.len(),
{
    if stats.len() > 0 {
        lemma_sum_counts_empty(stats.drop_last());
    }
}

proof fn lemma_sum_counts_full(stats: Seq<(CohortKey, i64)>, lines: Seq<u64>)
    requires
        tally_keys_unique(stats),
        forall|c: u64| blame::count_in(lines, c) > 0
            ==> exists|k: int| 0 <= k < stats.len() && (#[trigger] stats[k]).0 == c,
    ensures
        sum_counts(stats, lines) == lines.len(),
    decreases lines.len(),
{
    if lines.len() == 0 {
        assert(lines =~= Seq::<u64>::empty());
        lemma_sum_counts_empty(stats);
    } else {
        let dl = lines.drop_last();
        assert forall|c: u64| blame::count_in(dl, c) > 0 implies
            exists|k: int| 0 <= k < stats.len() && (#[trigger] stats[k]).0 == c by {
            assert(blame::count_in(lines, c) >= blame::count_in(dl, c));
        }
        lemma_sum_counts_full(stats, dl);
        lemma_sum_counts_line(stats, lines);
        lemma_sum_ind_unique(stats, lines.last());
        assert(blame::count_in(lines, lines.last()) > 0) by {
            blame::lemma_count_in_le_len(dl, lines.last());
        }
    }
}

proof fn lemma_sum_files_counts_file(
    stats: Seq<(CohortKey, i64)>,
    files: Seq<(Vec<u8>, FileBlame)>,
)
    requires
        files.len() > 0,
    ensures
        sum_files_counts(stats, files)
            == sum_files_counts(stats, files.drop_last()) + sum_counts(stats, files.last().1@),
    decreases stats.len(),
{
    if stats.len() > 0 {
        lemma_sum_files_counts_file(stats.drop_last(), files);
    }
}

proof fn lemma_sum_files_counts_empty(stats: Seq<(CohortKey, i64)>)
    ensures
        sum_files_counts(stats, Seq::<(Vec<u8>, FileBlame)>::empty()) == 0,
    decreases stats.len(),
{
    if stats.len() > 0 {
        lemma_sum_files_counts_empty(stats.drop_last());
    }
}

proof fn lemma_sum_files_counts_total(
    stats: Seq<(CohortKey, i64)>,
    files: Seq<(Vec<u8>, FileBlame)>,
)
    requires
        tally_keys_unique(stats),
        forall|c: u64| files_count(files, c) > 0
            ==> exists|k: int| 0 <= k < stats.len() && (#[trigger] stats[k]).0 == c,
    ensures
        sum_files_counts(stats, files) == files_total(files),
    decreases files.len(),
{
    if files.len() == 0 {
        assert(files =~= Seq::<(Vec<u8>, FileBlame)>::empty());
        lemma_sum_files_counts_empty(stats);
    } else {
        let dl = files.drop_last();
        assert forall|c: u64| files_count(dl, c) > 0 implies
            exists|k: int| 0 <= k < stats.len() && (#[trigger] stats[k]).0 == c by {
            blame::lemma_count_in_le_len(files.last().1@, c);
            assert(files_count(files, c) >= files_count(dl, c));
        }
        lemma_sum_files_counts_total(stats, dl);
        lemma_sum_files_counts_file(stats, files);
        assert forall|c: u64| blame::count_in(files.last().1@, c) > 0 implies
            exists|k: int| 0 <= k < stats.len() && (#[trigger] stats[k]).0 == c by {
            lemma_files_count_nonneg(dl, c);
            assert(files_count(files, c) > 0);
        }
        lemma_sum_counts_full(stats, files.last().1@);
    }
}

proof fn lemma_tally_sum_eq(stats: Seq<(CohortKey, i64)>, files: Seq<(Vec<u8>, FileBlame)>)
    requires
        forall|k: int|
            0 <= k < stats.len()
                ==> (#[trigger] stats[k]).1 == files_count(files, stats[k].0),
    ensures
        tally_sum(stats) == sum_files_counts(stats, files),
    decreases stats.len(),
{
    if stats.len() > 0 {
        let dl = stats.drop_last();
        assert forall|k: int| 0 <= k < dl.len() implies
            (#[trigger] dl[k]).1 == files_count(files, dl[k].0) by {
            assert(stats[k].1 == files_count(files, stats[k].0));
        }
        lemma_tally_sum_eq(dl, files);
        assert(stats[stats.len() - 1].1 == files_count(files, stats[stats.len() - 1].0));
    }
}

proof fn lemma_tally_lookup_nonzero(stats: Seq<(CohortKey, i64)>, c: u64)
    requires
        tally_lookup(stats, c) != 0,
    ensures
        exists|k: int| 0 <= k < stats.len() && (#[trigger] stats[k]).0 == c,
    decreases stats.len(),
{
    if stats.len() > 0 {
        if stats.last().0 == c {
            assert(stats[stats.len() - 1].0 == c);
        } else {
            lemma_tally_lookup_nonzero(stats.drop_last(), c);
            let k = choose|k: int|
                0 <= k < stats.drop_last().len() && (#[trigger] stats.drop_last()[k]).0 == c;
            assert(stats[k].0 == c);
        }
    }
}

/// Law: conservation.  In a well-formed snapshot the running tally's values
/// sum to the total number of lines over all tracked files.
pub proof fn lemma_conservation(snap: &RepositoryBlameSnapshot)
    requires
        snap.wf(),
    ensures
        tally_sum(snap.running_cohort_stats@) == files_total(snap.file_blames@),
{
    let stats = snap.running_cohort_stats@;
    let files = snap.file_blames@;
    assert forall|k: int| 0 <= k < stats.len() implies
        (#[trigger] stats[k]).1 == files_count(files, stats[k].0) by {
        lemma_tally_lookup_at(stats, k, stats[k].0);
    }
    lemma_tally_sum_eq(stats, files);
    assert forall|c: u64| files_count(files, c) > 0 implies
        exists|k: int| 0 <= k < stats.len() && (#[trigger] stats[k]).0 == c by {
        assert(tally_lookup(stats, c) == files_count(files, c));
        lemma_tally_lookup_nonzero(stats, c);
    }
    lemma_sum_files_counts_total(stats, files);
}

/// A fresh copy of a byte string.
fn copy_bytes(a: &Vec<u8>) -> (r: Vec<u8>)
    ensures
        r@ == a@,
{
    let n = a.len();
    let mut r: Vec<u8> = Vec::new();
    let mut i: usize = 0;
    while i < n
        invariant
            n == a@.len(),
            i <= n,
            r@ == a@.take(i as int),
        decreases n - i,
    {
        r.push(a[i]);
        proof {
            assert(r@ =~= a@.take(i + 1));
        }
        i = i + 1;
    }
    proof {
        assert(r@ =~= a@);
    }
    r
}

/// Byte-for-byte equality of two byte strings.
fn vecs_equal(a: &Vec<u8>, b: &Vec<u8>) -> (r: bool)
    ensures
        r == (a@ == b@),
{
    if a.len() != b.len() {
        proof {
            assert(a@ != b@) by {
                assert(a@.len() != b@.len());
            }
        }
        return false;
    }
    let n = a.len();
    let mut i: usize = 0;
    while i < n
        invariant
            n == a@.len(),
            n == b@.len(),
            i <= n,
            forall|k: int| 0 <= k < i ==> a@[k] == b@[k],
        decreases n - i,
    {
        if a[i] != b[i] {
            return false;
        }
        i = i + 1;
    }
    proof {
        assert(a@ =~= b@);
    }
    true
}

/// Appending a fresh entry extends table and counts.
pub proof fn lemma_files_push(files: Seq<(Vec<u8>, FileBlame)>, e: (Vec<u8>, FileBlame))
    requires
        paths_unique(files),
        !has_path(files, e.0@),
    ensures
        paths_unique(files.push(e)),
        file_map(files.push(e)) == file_map(files).insert(e.0@, e.1@),
        forall|c: u64| #[trigger] files_count(files.push(e), c)
            == files_count(files, c) + blame::count_in(e.1@, c),
        files_total(files.push(e)) == files_total(files) + e.1@.len(),
{
    let r = files.push(e);
    assert(r.drop_last() =~= files);
    assert(r.last() == e);
    assert(paths_unique(r)) by {
        assert forall|k1: int, k2: int| 0 <= k1 < k2 < r.len() implies
            (#[trigger] r[k1]).0@ != (#[trigger] r[k2]).0@ by {
            if k2 < files.len() {
                assert(files[k1].0@ != files[k2].0@);
            } else {
                assert(files[k1].0@ == r[k1].0@);
                if files[k1].0@ == e.0@ {
                    assert(has_path(files, e.0@));
                }
            }
        }
    }
}

} // verus!
