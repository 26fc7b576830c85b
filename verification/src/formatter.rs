//! Shaping walk results for plotting: group the per-commit cohort tallies by
//! the cohort's calendar year.

use vstd::prelude::*;
use vstd::string::StringExecFns;
use crate::repo_blame_snapshot::tally_sum;
use crate::theseus::{CommitCohortInfo, TheseusResult};

verus! {

/// The plotted data: `labels[k]` names the cohort years, `ts[i]` is the
/// timestamp of sample `i`, and `y[k][i]` is the number of lines at sample
/// `i` attributed to cohorts of year `labels[k]`.
#[derive(Debug)]
pub struct CohortData {
    pub y: Vec<Vec<i64>>,
    pub ts: Vec<String>,
    pub labels: Vec<String>,
}

// ---------------------------------------------------------------------------
// The sorted list of distinct cohort years.
// ---------------------------------------------------------------------------

/// Insert a year into an ascending list of distinct years.
pub open spec fn insert_year(ys: Seq<u32>, y: u32) -> Seq<u32>
    decreases ys.len(),
{
    if ys.len() == 0 {
        seq![y]
    } else if ys.last() == y {
        ys
    } else if ys.last() < y {
        ys.push(y)
    } else {
        insert_year(ys.drop_last(), y).push(ys.last())
    }
}

/// The distinct years of the sampled commits, ascending.
pub open spec fn year_list(infos: Seq<CommitCohortInfo>) -> Seq<u32>
    decreases infos.len(),
{
    if infos.len() == 0 {
        Seq::empty()
    } else {
        insert_year(year_list(infos.drop_last()), infos.last().year)
    }
}

pub open spec fn years_ascending(ys: Seq<u32>) -> bool {
    forall|i: int, j: int| 0 <= i < j < ys.len() ==> (#[trigger] ys[i]) < (#[trigger] ys[j])
}

pub proof fn lemma_insert_year(ys: Seq<u32>, y: u32)
    requires
        years_ascending(ys),
    ensures
        years_ascending(insert_year(ys, y)),
        forall|e: u32| #![trigger insert_year(ys, y).contains(e)]
            insert_year(ys, y).contains(e) <==> (ys.contains(e) || e == y),
        forall|e: u32| #![trigger ys.contains(e)]
            insert_year(ys, y).contains(e) <==> (ys.contains(e) || e == y),
    decreases ys.len(),
{
    let r = insert_year(ys, y);
    if ys.len() == 0 {
        assert(r =~= seq![y]);
        assert forall|e: u32| r.contains(e) implies (ys.contains(e) || e == y) by {
            let i = choose|i: int| 0 <= i < r.len() && r[i] == e;
            assert(i == 0);
        }
        assert(r[0] == y);
    } else if ys.last() == y {
        assert(ys[ys.len() - 1] == y);
    } else if ys.last() < y {
        assert forall|i: int, j: int| 0 <= i < j < r.len() implies
            (#[trigger] r[i]) < (#[trigger] r[j]) by {
            if j < ys.len() {
                assert(ys[i] < ys[j]);
            } else if i < ys.len() - 1 {
                assert(ys[i] < ys[ys.len() - 1]);
            }
        }
        assert forall|e: u32| r.contains(e) implies (ys.contains(e) || e == y) by {
            let i = choose|i: int| 0 <= i < r.len() && r[i] == e;
            if i < ys.len() {
                assert(ys[i] == e);
            }
        }
        assert forall|e: u32| (ys.contains(e) || e == y) implies r.contains(e) by {
            if e == y {
                assert(r[ys.len() as int] == y);
            } else {
                let i = choose|i: int| 0 <= i < ys.len() && ys[i] == e;
                assert(r[i] == e);
            }
        }
    } else {
        let dl = ys.drop_last();
        assert(years_ascending(dl)) by {
            assert forall|i: int, j: int| 0 <= i < j < dl.len() implies
                (#[trigger] dl[i]) < (#[trigger] dl[j]) by {
                assert(ys[i] < ys[j]);
            }
        }
        lemma_insert_year(dl, y);
        let inner = insert_year(dl, y);
        assert forall|i: int, j: int| 0 <= i < j < r.len() implies
            (#[trigger] r[i]) < (#[trigger] r[j]) by {
            if j < inner.len() {
                assert(inner[i] < inner[j]);
            } else {
                assert(inner.contains(inner[i]));
                if dl.contains(inner[i]) {
                    let k = choose|k: int| 0 <= k < dl.len() && dl[k] == inner[i];
                    assert(ys[k] < ys[ys.len() - 1]);
                } else {
                    assert(inner[i] == y);
                }
            }
        }
        assert forall|e: u32| r.contains(e) implies (ys.contains(e) || e == y) by {
            let i = choose|i: int| 0 <= i < r.len() && r[i] == e;
            if i < inner.len() {
                assert(inner.contains(e));
                if dl.contains(e) {
                    let k = choose|k: int| 0 <= k < dl.len() && dl[k] == e;
                    assert(ys[k] == e);
                }
            } else {
                assert(ys[ys.len() - 1] == e);
            }
        }
        assert forall|e: u32| (ys.contains(e) || e == y) implies r.contains(e) by {
            if e == ys.last() {
                assert(r.last() == e);
            } else if e == y || dl.contains(e) {
                assert(inner.contains(e));
                let k = choose|k: int| 0 <= k < inner.len() && inner[k] == e;
                assert(r[k] == e);
            } else {
                let i = choose|i: int| 0 <= i < ys.len() && ys[i] == e;
                assert(i < ys.len() - 1);
                assert(dl[i] == e);
            }
        }
    }
}

pub proof fn lemma_year_list(infos: Seq<CommitCohortInfo>)
    ensures
        years_ascending(year_list(infos)),
        forall|e: u32| #![trigger year_list(infos).contains(e)]
            year_list(infos).contains(e)
                <==> exists|k: int| 0 <= k < infos.len() && (#[trigger] infos[k]).year == e,
    decreases infos.len(),
{
    if infos.len() == 0 {
        assert(forall|e: u32| !year_list(infos).contains(e));
    } else {
        let dl = infos.drop_last();
        lemma_year_list(dl);
        lemma_insert_year(year_list(dl), infos.last().year);
        assert forall|e: u32| year_list(infos).contains(e) implies
            exists|k: int| 0 <= k < infos.len() && (#[trigger] infos[k]).year == e by {
            if year_list(dl).contains(e) {
                let k = choose|k: int| 0 <= k < dl.len() && (#[trigger] dl[k]).year == e;
                assert(infos[k].year == e);
            } else {
                assert(infos[infos.len() - 1].year == e);
            }
        }
        assert forall|e: u32|
            (exists|k: int| 0 <= k < infos.len() && (#[trigger] infos[k]).year == e) implies
            year_list(infos).contains(e) by {
            let k = choose|k: int| 0 <= k < infos.len() && (#[trigger] infos[k]).year == e;
            if k < infos.len() - 1 {
                assert(dl[k].year == e);
                assert(year_list(dl).contains(e));
            }
        }
    }
}

/// Stable-position form of `insert_year` on an ascending list.
proof fn lemma_insert_year_at(ys: Seq<u32>, y: u32, j: int)
    requires
        years_ascending(ys),
        0 <= j <= ys.len(),
        j > 0 ==> ys[j - 1] <= y,
        j < ys.len() ==> y < ys[j],
    ensures
        j > 0 && ys[j - 1] == y ==> insert_year(ys, y) == ys,
        !(j > 0 && ys[j - 1] == y) ==> insert_year(ys, y)
            == ys.subrange(0, j) + seq![y] + ys.subrange(j, ys.len() as int),
    decreases ys.len(),
{
    if ys.len() == 0 {
        assert(insert_year(ys, y) =~= ys.subrange(0, 0) + seq![y] + ys.subrange(0, 0));
    } else if ys.last() == y {
        assert(j == ys.len()) by {
            if j < ys.len() {
                assert(y < ys[j]);
                if j < ys.len() - 1 {
                    assert(ys[j] < ys[ys.len() - 1]);
                }
            }
        }
    } else if ys.last() < y {
        assert(j == ys.len()) by {
            if j < ys.len() {
                assert(y < ys[j]);
                if j < ys.len() - 1 {
                    assert(ys[j] < ys[ys.len() - 1]);
                }
            }
        }
        assert(ys.push(y) =~= ys.subrange(0, j) + seq![y] + ys.subrange(j, ys.len() as int));
    } else {
        // ys.last() > y
        assert(j < ys.len()) by {
            if j == ys.len() {
                assert(ys[j - 1] <= y);
            }
        }
        let dl = ys.drop_last();
        assert(years_ascending(dl)) by {
            assert forall|a: int, b: int| 0 <= a < b < dl.len() implies
                (#[trigger] dl[a]) < (#[trigger] dl[b]) by {
                assert(ys[a] < ys[b]);
            }
        }
        assert(j < dl.len() ==> y < dl[j]) by {
            if j < dl.len() {
                assert(dl[j] == ys[j]);
            }
        }
        if j > 0 {
            assert(dl[j - 1] == ys[j - 1]);
        }
        lemma_insert_year_at(dl, y, j);
        if j > 0 && ys[j - 1] == y {
            // the year is already listed; insertion changes nothing
            assert(insert_year(dl, y) == dl);
            assert(insert_year(ys, y) =~= ys) by {
                assert(insert_year(ys, y) == insert_year(dl, y).push(ys.last()));
            }
        } else {
            assert(insert_year(ys, y)
                =~= ys.subrange(0, j) + seq![y] + ys.subrange(j, ys.len() as int)) by {
                assert(insert_year(ys, y) == insert_year(dl, y).push(ys.last()));
                assert(insert_year(dl, y)
                    == dl.subrange(0, j) + seq![y] + dl.subrange(j, dl.len() as int));
                assert forall|k: int| 0 <= k < j implies dl.subrange(0, j)[k] == ys.subrange(0, j)[k] by {
                    assert(dl[k] == ys[k]);
                }
            }
        }
    }
}

/// Collect the distinct years of the sampled commits, ascending.
fn collect_years(infos: &Vec<CommitCohortInfo>) -> (r: Vec<u32>)
    ensures
        r@ == year_list(infos@),
        years_ascending(r@),
{
    let n = infos.len();
    let mut r: Vec<u32> = Vec::new();
    let mut k: usize = 0;
    proof {
        assert(infos@.take(0) =~= Seq::<CommitCohortInfo>::empty());
        lemma_year_list(infos@.take(0));
    }
    while k < n
        invariant
            n == infos@.len(),
            k <= n,
            r@ == year_list(infos@.take(k as int)),
            years_ascending(r@),
        decreases n - k,
    {
        let y = infos[k].year;
        let ghost ys0 = r@;
        // find the ascending position of `y` from the right
        let mut j: usize = r.len();
        while j > 0 && r[j - 1] > y
            invariant
                j <= r@.len(),
                r@ == ys0,
                forall|t: int| j <= t < r@.len() ==> (#[trigger] r@[t]) > y,
            decreases j,
        {
            j = j - 1;
        }
        if j > 0 && r[j - 1] == y {
            proof {
                lemma_insert_year_at(ys0, y, j as int);
                assert(infos@.take(k + 1).drop_last() =~= infos@.take(k as int));
                assert(infos@.take(k + 1).last() == infos@[k as int]);
            }
        } else {
            let ghost jj = j as int;
            r.insert(j, y);
            proof {
                lemma_insert_year_at(ys0, y, jj);
                lemma_insert_year(ys0, y);
                assert(r@ =~= ys0.subrange(0, jj) + seq![y] + ys0.subrange(jj, ys0.len() as int));
                assert(infos@.take(k + 1).drop_last() =~= infos@.take(k as int));
                assert(infos@.take(k + 1).last() == infos@[k as int]);
            }
        }
        k = k + 1;
    }
    proof {
        assert(infos@.take(n as int) =~= infos@);
    }
    r
}

// ---------------------------------------------------------------------------
// Decimal labels.
// ---------------------------------------------------------------------------

/// The decimal digit characters.
pub open spec fn digit_char(d: int) -> char {
    if d == 0 { '0' } else if d == 1 { '1' } else if d == 2 { '2' } else if d == 3 { '3' }
    else if d == 4 { '4' } else if d == 5 { '5' } else if d == 6 { '6' } else if d == 7 { '7' }
    else if d == 8 { '8' } else { '9' }
}

/// The decimal digits of a number, most significant first.
pub open spec fn dec_digits(n: int) -> Seq<char>
    decreases n,
{
    if n < 10 {
        seq![digit_char(n)]
    } else {
        dec_digits(n / 10).push(digit_char(n % 10))
    }
}

/// The label of a cohort year.
pub open spec fn label_spec(y: int) -> Seq<char> {
    "Code added in "@ + dec_digits(y)
}

/// One decimal digit as text.
fn digit_str(d: u32) -> (r: &'static str)
    requires
        d < 10,
    ensures
        r@ == seq![digit_char(d as int)],
{
    proof {
        reveal_strlit("0");
        reveal_strlit("1");
        reveal_strlit("2");
        reveal_strlit("3");
        reveal_strlit("4");
        reveal_strlit("5");
        reveal_strlit("6");
        reveal_strlit("7");
        reveal_strlit("8");
        reveal_strlit("9");
    }
    if d == 0 {
        proof {
            assert("0"@ =~= seq![digit_char(0)]);
        }
        "0"
    } else if d == 1 {
        proof {
            assert("1"@ =~= seq![digit_char(1)]);
        }
        "1"
    } else if d == 2 {
        proof {
            assert("2"@ =~= seq![digit_char(2)]);
        }
        "2"
    } else if d == 3 {
        proof {
            assert("3"@ =~= seq![digit_char(3)]);
        }
        "3"
    } else if d == 4 {
        proof {
            assert("4"@ =~= seq![digit_char(4)]);
        }
        "4"
    } else if d == 5 {
        proof {
            assert("5"@ =~= seq![digit_char(5)]);
        }
        "5"
    } else if d == 6 {
        proof {
            assert("6"@ =~= seq![digit_char(6)]);
        }
        "6"
    } else if d == 7 {
        proof {
            assert("7"@ =~= seq![digit_char(7)]);
        }
        "7"
    } else if d == 8 {
        proof {
            assert("8"@ =~= seq![digit_char(8)]);
        }
        "8"
    } else {
        proof {
            assert("9"@ =~= seq![digit_char(9)]);
        }
        "9"
    }
}

/// Append the decimal digits of `n`, most significant first.
fn push_decimal(n: u32, s: &mut String)
    ensures
        final(s)@ == old(s)@ + dec_digits(n as int),
    decreases n,
{
    if n >= 10 {
        push_decimal(n / 10, s);
    }
    let d = digit_str(n % 10);
    s.append(d);
    proof {
        if n >= 10 {
            assert(old(s)@ + dec_digits(n as int)
                =~= old(s)@ + dec_digits(n as int / 10) + seq![digit_char(n as int % 10)]);
        } else {
            assert(old(s)@ + dec_digits(n as int) =~= old(s)@ + seq![digit_char(n as int)]);
        }
    }
}

/// The plot label of one cohort year.
fn make_label(y: u32) -> (r: String)
    ensures
        r@ == label_spec(y as int),
{
    let mut s = "Code added in ".to_owned();
    push_decimal(y, &mut s);
    s
}

// ---------------------------------------------------------------------------
// Year totals.
// ---------------------------------------------------------------------------

/// The lines of one snapshot attributed to cohorts of year `y`.
pub open spec fn year_total(infos: Seq<CommitCohortInfo>, snap: Seq<(u64, i64)>, y: u32) -> int
    decreases snap.len(),
{
    if snap.len() == 0 {
        0
    } else {
        year_total(infos, snap.drop_last(), y) + if infos[snap.last().0 as int].year == y {
            snap.last().1 as int
        } else {
            0int
        }
    }
}

/// Sum of the absolute values of a snapshot's entries.
pub open spec fn abs_sum(snap: Seq<(u64, i64)>) -> int
    decreases snap.len(),
{
    if snap.len() == 0 {
        0
    } else {
        abs_sum(snap.drop_last()) + if snap.last().1 >= 0 {
            snap.last().1 as int
        } else {
            -(snap.last().1 as int)
        }
    }
}

proof fn lemma_year_total_bound(infos: Seq<CommitCohortInfo>, snap: Seq<(u64, i64)>, y: u32)
    ensures
        -abs_sum(snap) <= year_total(infos, snap, y) <= abs_sum(snap),
        abs_sum(snap) >= 0,
    decreases snap.len(),
{
    if snap.len() > 0 {
        lemma_year_total_bound(infos, snap.drop_last(), y);
    }
}

proof fn lemma_abs_sum_take(snap: Seq<(u64, i64)>, k: int)
    requires
        0 <= k <= snap.len(),
    ensures
        abs_sum(snap.take(k)) <= abs_sum(snap),
    decreases snap.len() - k,
{
    if k == snap.len() {
        assert(snap.take(k) =~= snap);
    } else {
        lemma_abs_sum_take(snap, k + 1);
        assert(snap.take(k + 1).drop_last() =~= snap.take(k));
        assert(snap.take(k + 1).last() == snap[k]);
    }
}

/// Every entry's cohort indexes the commit table.
pub open spec fn snaps_wf(infos: Seq<CommitCohortInfo>, snaps: Seq<Vec<(u64, i64)>>) -> bool {
    forall|i: int, j: int|
        0 <= i < snaps.len() && 0 <= j < snaps[i]@.len()
            ==> (#[trigger] snaps[i]@[j]).0 < infos.len()
}

/// The lines of snapshot `snap` attributed to cohorts of year `y`.
fn snapshot_year_total(
    infos: &Vec<CommitCohortInfo>,
    snap: &Vec<(u64, i64)>,
    y: u32,
) -> (r: i64)
    requires
        forall|j: int| 0 <= j < snap@.len() ==> (#[trigger] snap@[j]).0 < infos@.len(),
        abs_sum(snap@) <= i64::MAX,
    ensures
        r as int == year_total(infos@, snap@, y),
{
    let n = snap.len();
    let ni = infos.len();
    let mut acc: i64 = 0;
    let mut j: usize = 0;
    proof {
        assert(snap@.take(0) =~= Seq::<(u64, i64)>::empty());
    }
    while j < n
        invariant
            n == snap@.len(),
            ni == infos@.len(),
            j <= n,
            forall|t: int| 0 <= t < snap@.len() ==> (#[trigger] snap@[t]).0 < infos@.len(),
            abs_sum(snap@) <= i64::MAX,
            acc as int == year_total(infos@, snap@.take(j as int), y),
        decreases n - j,
    {
        let (key, count) = snap[j];
        proof {
            assert(snap@[j as int] == (key, count));
            assert(key < ni);
            assert(snap@.take(j + 1).drop_last() =~= snap@.take(j as int));
            assert(snap@.take(j + 1).last() == snap@[j as int]);
            lemma_year_total_bound(infos@, snap@.take(j + 1), y);
            lemma_year_total_bound(infos@, snap@.take(j as int), y);
            lemma_abs_sum_take(snap@, j + 1);
            lemma_abs_sum_take(snap@, j as int);
        }
        if infos[key as usize].year == y {
            proof {
                assert(year_total(infos@, snap@.take(j + 1), y)
                    == year_total(infos@, snap@.take(j as int), y) + count);
                assert(-abs_sum(snap@) <= acc as int + count <= abs_sum(snap@));
            }
            acc = acc + count;
        } else {
            proof {
                assert(year_total(infos@, snap@.take(j + 1), y)
                    == year_total(infos@, snap@.take(j as int), y));
            }
        }
        j = j + 1;
    }
    proof {
        assert(snap@.take(n as int) =~= snap@);
    }
    acc
}

/// Group a walk's per-commit cohort tallies by the cohorts' calendar years.
///
/// The output holds one label and one row of `y` per distinct cohort year
/// (ascending); one timestamp per sampled commit; and in `y[k][i]` the total
/// lines of snapshot `i` whose cohort falls in year `labels[k]`.
pub fn sum_commit_data_by_year(result: TheseusResult) -> (r: CohortData)
    requires
        snaps_wf(result.commit_cohort_info@, result.cohort_data@),
        forall|i: int| 0 <= i < result.cohort_data@.len()
            ==> abs_sum((#[trigger] result.cohort_data@[i])@) <= i64::MAX,
    ensures
        r.ts@.len() == result.commit_cohort_info@.len(),
        forall|k: int| 0 <= k < r.ts@.len()
            ==> (#[trigger] r.ts@[k])@ == result.commit_cohort_info@[k].time_string@,
        r.labels@.len() == year_list(result.commit_cohort_info@).len(),
        forall|k: int| 0 <= k < r.labels@.len()
            ==> (#[trigger] r.labels@[k])@
                == label_spec(year_list(result.commit_cohort_info@)[k] as int),
        r.y@.len() == year_list(result.commit_cohort_info@).len(),
        forall|k: int| 0 <= k < r.y@.len()
            ==> (#[trigger] r.y@[k])@.len() == result.cohort_data@.len(),
        forall|k: int, i: int|
            0 <= k < r.y@.len() && 0 <= i < result.cohort_data@.len()
                ==> (#[trigger] r.y@[k]@[i]) as int == year_total(
                    result.commit_cohort_info@,
                    result.cohort_data@[i]@,
                    year_list(result.commit_cohort_info@)[k],
                ),
{
    let infos = &result.commit_cohort_info;
    let snaps = &result.cohort_data;
    let n_infos = infos.len();
    let n_snaps = snaps.len();

    let mut ts: Vec<String> = Vec::new();
    let mut k: usize = 0;
    while k < n_infos
        invariant
            n_infos == infos@.len(),
            k <= n_infos,
            ts@.len() == k,
            forall|t: int| 0 <= t < k
                ==> (#[trigger] ts@[t])@ == infos@[t].time_string@,
        decreases n_infos - k,
    {
        let s = infos[k].time_string.clone();
        ts.push(s);
        k = k + 1;
    }

    let years = collect_years(infos);
    let n_years = years.len();

    let mut labels: Vec<String> = Vec::new();
    let mut k: usize = 0;
    while k < n_years
        invariant
            n_years == years@.len(),
            years@ == year_list(infos@),
            infos@ == result.commit_cohort_info@,
            k <= n_years,
            labels@.len() == k,
            forall|t: int| 0 <= t < k
                ==> (#[trigger] labels@[t])@ == label_spec(years@[t] as int),
        decreases n_years - k,
    {
        let l = make_label(years[k]);
        labels.push(l);
        k = k + 1;
    }

    let mut y: Vec<Vec<i64>> = Vec::new();
    let mut k: usize = 0;
    while k < n_years
        invariant
            n_years == years@.len(),
            years@ == year_list(infos@),
            infos@ == result.commit_cohort_info@,
            snaps@ == result.cohort_data@,
            n_snaps == snaps@.len(),
            snaps_wf(infos@, snaps@),
            forall|i: int| 0 <= i < snaps@.len()
                ==> abs_sum((#[trigger] snaps@[i])@) <= i64::MAX,
            k <= n_years,
            y@.len() == k,
            forall|t: int| 0 <= t < k ==> (#[trigger] y@[t])@.len() == n_snaps,
            forall|t: int, i: int|
                0 <= t < k && 0 <= i < n_snaps
                    ==> (#[trigger] y@[t]@[i]) as int
                        == year_total(infos@, snaps@[i]@, years@[t]),
        decreases n_years - k,
    {
        let yr = years[k];
        let mut row: Vec<i64> = Vec::new();
        let mut i: usize = 0;
        while i < n_snaps
            invariant
                n_snaps == snaps@.len(),
                snaps_wf(infos@, snaps@),
                forall|t: int| 0 <= t < snaps@.len()
                    ==> abs_sum((#[trigger] snaps@[t])@) <= i64::MAX,
                i <= n_snaps,
                row@.len() == i,
                forall|t: int| 0 <= t < i
                    ==> (#[trigger] row@[t]) as int == year_total(infos@, snaps@[t]@, yr),
            decreases n_snaps - i,
        {
            proof {
                assert forall|j: int| 0 <= j < snaps@[i as int]@.len() implies
                    (#[trigger] snaps@[i as int]@[j]).0 < infos@.len() by {
                    assert(snaps_wf(infos@, snaps@));
                }
            }
            let cell = snapshot_year_total(infos, &snaps[i], yr);
            row.push(cell);
            i = i + 1;
        }
        y.push(row);
        k = k + 1;
    }

    CohortData { y, ts, labels }
}

/// Sum of the per-year totals of one snapshot over a list of years.
pub open spec fn sum_year_totals(
    infos: Seq<CommitCohortInfo>,
    snap: Seq<(u64, i64)>,
    ys: Seq<u32>,
) -> int
    decreases ys.len(),
{
    if ys.len() == 0 {
        0
    } else {
        sum_year_totals(infos, snap, ys.drop_last()) + year_total(infos, snap, ys.last())
    }
}

proof fn lemma_sum_year_totals_empty(infos: Seq<CommitCohortInfo>, ys: Seq<u32>)
    ensures
        sum_year_totals(infos, Seq::<(u64, i64)>::empty(), ys) == 0,
    decreases ys.len(),
{
    if ys.len() > 0 {
        lemma_sum_year_totals_empty(infos, ys.drop_last());
    }
}

/// Appending one snapshot entry adds its count to exactly the rows of its
/// cohort's year.
proof fn lemma_sum_year_totals_push(
    infos: Seq<CommitCohortInfo>,
    dl: Seq<(u64, i64)>,
    e: (u64, i64),
    ys: Seq<u32>,
)
    requires
        e.0 < infos.len(),
        years_ascending(ys),
    ensures
        sum_year_totals(infos, dl.push(e), ys)
            == sum_year_totals(infos, dl, ys)
                + if ys.contains(infos[e.0 as int].year) { e.1 as int } else { 0int },
    decreases ys.len(),
{
    let yr = infos[e.0 as int].year;
    if ys.len() == 0 {
        assert(!ys.contains(yr));
    } else {
        let dys = ys.drop_last();
        assert(years_ascending(dys)) by {
            assert forall|i: int, j: int| 0 <= i < j < dys.len() implies
                (#[trigger] dys[i]) < (#[trigger] dys[j]) by {
                assert(ys[i] < ys[j]);
            }
        }
        lemma_sum_year_totals_push(infos, dl, e, dys);
        assert(dl.push(e).drop_last() =~= dl);
        assert(dl.push(e).last() == e);
        assert(year_total(infos, dl.push(e), ys.last())
            == year_total(infos, dl, ys.last())
                + if infos[e.0 as int].year == ys.last() { e.1 as int } else { 0int });
        if ys.last() == yr {
            assert(ys.contains(yr)) by {
                assert(ys[ys.len() - 1] == yr);
            }
            // the distinct ascending years list holds `yr` only at its end
            assert(!dys.contains(yr)) by {
                if dys.contains(yr) {
                    let k = choose|k: int| 0 <= k < dys.len() && dys[k] == yr;
                    assert(ys[k] < ys[ys.len() - 1]);
                }
            }
        } else {
            assert(ys.contains(yr) <==> dys.contains(yr)) by {
                if ys.contains(yr) {
                    let k = choose|k: int| 0 <= k < ys.len() && ys[k] == yr;
                    assert(k < ys.len() - 1);
                    assert(dys[k] == yr);
                }
                if dys.contains(yr) {
                    let k = choose|k: int| 0 <= k < dys.len() && dys[k] == yr;
                    assert(ys[k] == yr);
                }
            }
        }
    }
}

/// Law: grouping by calendar year loses no lines.  For a snapshot whose
/// cohorts all index the commit table, the per-year totals over the distinct
/// years sum to the plain sum of the snapshot's counts — so each column of
/// the matrix that `sum_commit_data_by_year` returns sums to the snapshot's
/// running tally, which by the snapshot's conservation law is the tree's
/// total line count at that sample.
pub proof fn lemma_year_totals_cover(infos: Seq<CommitCohortInfo>, snap: Seq<(u64, i64)>)
    requires
        forall|j: int| 0 <= j < snap.len() ==> (#[trigger] snap[j]).0 < infos.len(),
    ensures
        sum_year_totals(infos, snap, year_list(infos)) == tally_sum(snap),
    decreases snap.len(),
{
    lemma_year_list(infos);
    let ys = year_list(infos);
    if snap.len() == 0 {
        assert(snap =~= Seq::<(u64, i64)>::empty());
        lemma_sum_year_totals_empty(infos, ys);
    } else {
        let dl = snap.drop_last();
        let e = snap.last();
        assert forall|j: int| 0 <= j < dl.len() implies (#[trigger] dl[j]).0 < infos.len() by {
            assert(snap[j].0 < infos.len());
        }
        lemma_year_totals_cover(infos, dl);
        lemma_sum_year_totals_push(infos, dl, e, ys);
        assert(dl.push(e) =~= snap);
        assert(ys.contains(infos[e.0 as int].year)) by {
            let k = e.0 as int;
            assert(snap[snap.len() - 1].0 < infos.len());
            assert(0 <= k < infos.len() && (#[trigger] infos[k]).year == infos[e.0 as int].year);
        }
    }
}

/// Shape a walk's results for plotting; see `sum_commit_data_by_year`.
pub fn format_cohort_data(result: TheseusResult) -> (r: CohortData)
    requires
        snaps_wf(result.commit_cohort_info@, result.cohort_data@),
        forall|i: int| 0 <= i < result.cohort_data@.len()
            ==> abs_sum((#[trigger] result.cohort_data@[i])@) <= i64::MAX,
    ensures
        r.ts@.len() == result.commit_cohort_info@.len(),
        forall|k: int| 0 <= k < r.ts@.len()
            ==> (#[trigger] r.ts@[k])@ == result.commit_cohort_info@[k].time_string@,
        r.labels@.len() == year_list(result.commit_cohort_info@).len(),
        forall|k: int| 0 <= k < r.labels@.len()
            ==> (#[trigger] r.labels@[k])@
                == label_spec(year_list(result.commit_cohort_info@)[k] as int),
        r.y@.len() == year_list(result.commit_cohort_info@).len(),
        forall|k: int| 0 <= k < r.y@.len()
            ==> (#[trigger] r.y@[k])@.len() == result.cohort_data@.len(),
        forall|k: int, i: int|
            0 <= k < r.y@.len() && 0 <= i < result.cohort_data@.len()
                ==> (#[trigger] r.y@[k]@[i]) as int == year_total(
                    result.commit_cohort_info@,
                    result.cohort_data@[i]@,
                    year_list(result.commit_cohort_info@)[k],
                ),
{
    sum_commit_data_by_year(result)
}

} // verus!
