//! Commit sampling: one representative commit per time bucket.
//!
//! The walk hands over the first-parent history, newest first, as plain
//! `(id, committer seconds)` pairs.  Each commit is bucketed by its committer
//! time — calendar week, month or year — and the first commit seen for each
//! bucket (the most recent one of that bucket) is retained.  A commit older
//! than the `start` bound ends the walk; commits newer than the `end` bound
//! are skipped.  The retained commits are returned oldest first.

use vstd::prelude::*;

verus! {

#[derive(Debug, Clone, Copy)]
pub enum Granularity {
    Weekly,
    Monthly,
    Yearly,
}

/// One commit of the walked history: its identifier and committer time in
/// seconds since the Unix epoch.
#[derive(Debug)]
pub struct SampleCommit {
    pub id: Vec<u8>,
    pub seconds: i64,
}

impl View for SampleCommit {
    type V = (Seq<u8>, int);

    open spec fn view(&self) -> (Seq<u8>, int) {
        (self.id@, self.seconds as int)
    }
}

/// Largest committer time the sampler accepts: far beyond any sane commit,
/// yet safely within the range chrono can map to a calendar date.
pub const MAX_SAMPLE_SECONDS: i64 = 8_000_000_000_000;

/// Smallest committer time the sampler accepts, the same distance before the
/// epoch.
pub const MIN_SAMPLE_SECONDS: i64 = -8_000_000_000_000;

/// The UTC calendar date (year, month, day) of a Unix timestamp.  Stands for
/// what chrono computes; a function of the timestamp alone.
pub uninterp spec fn civil_of(secs: int) -> (int, int, int);

/// Relies on chrono's `DateTime::from_timestamp` and the `Datelike`
/// accessors: the UTC calendar date of a Unix timestamp.  `from_timestamp`
/// returns `None` only for timestamps whose day count leaves chrono's
/// supported range (about 262,000 years either way), so every timestamp
/// within `MIN_SAMPLE_SECONDS..=MAX_SAMPLE_SECONDS` (about 253,000 years
/// either way) yields a date; months are 1 to 12 and days 1 to 31 by the
/// `Datelike` documentation.
#[verifier::external_body]
fn civil_date_of(secs: i64) -> (r: Option<(i32, u32, u32)>)
    ensures
        MIN_SAMPLE_SECONDS <= secs <= MAX_SAMPLE_SECONDS ==> r is Some,
        r matches Some(ymd) ==> {
            &&& ymd.0 as int == civil_of(secs as int).0
            &&& ymd.1 as int == civil_of(secs as int).1
            &&& ymd.2 as int == civil_of(secs as int).2
            &&& -262200 <= ymd.0 <= 262200
            &&& 1 <= ymd.1 <= 12
            &&& 1 <= ymd.2 <= 31
        },
{
    match chrono::DateTime::from_timestamp(secs, 0) {
        Some(dt) => Some((chrono::Datelike::year(&dt), chrono::Datelike::month(&dt), chrono::Datelike::day(&dt))),
        None => None,
    }
}

/// The bucket a committer time falls in: the calendar week (weeks start on
/// Sunday; the Unix epoch was a Thursday), the calendar month, or the
/// calendar year of the timestamp, each encoded as one integer.
pub open spec fn spec_bucket(g: Granularity, secs: int) -> int {
    match g {
        Granularity::Weekly => (secs / 86400 + 4) / 7,
        Granularity::Monthly => civil_of(secs).0 * 12 + civil_of(secs).1 - 1,
        Granularity::Yearly => civil_of(secs).0,
    }
}

/// Compute the bucket of a committer time.
fn bucket_id(g: Granularity, secs: i64) -> (r: i64)
    requires
        MIN_SAMPLE_SECONDS <= secs <= MAX_SAMPLE_SECONDS,
    ensures
        r as int == spec_bucket(g, secs as int),
{
    match g {
        Granularity::Weekly => {
            proof {
                vstd::arithmetic::div_mod::lemma_div_is_ordered(
                    MIN_SAMPLE_SECONDS as int, secs as int, 86400);
                vstd::arithmetic::div_mod::lemma_div_is_ordered(
                    secs as int, MAX_SAMPLE_SECONDS as int, 86400);
            }
            let days = match secs.checked_div_euclid(86400) {
                Some(d) => d,
                None => {
                    proof {
                        assert(false);
                    }
                    0
                },
            };
            proof {
                vstd::arithmetic::div_mod::lemma_div_is_ordered(
                    MIN_SAMPLE_SECONDS / 86400 + 4, days as int + 4, 7);
                vstd::arithmetic::div_mod::lemma_div_is_ordered(
                    days as int + 4, MAX_SAMPLE_SECONDS / 86400 + 4, 7);
            }
            match (days + 4).checked_div_euclid(7) {
                Some(w) => w,
                None => {
                    proof {
                        assert(false);
                    }
                    0
                },
            }
        },
        Granularity::Monthly => {
            match civil_date_of(secs) {
                Some((y, m, _d)) => y as i64 * 12 + (m as i64 - 1),
                None => {
                    proof {
                        assert(false);
                    }
                    0
                },
            }
        },
        Granularity::Yearly => {
            match civil_date_of(secs) {
                Some((y, _m, _d)) => y as i64,
                None => {
                    proof {
                        assert(false);
                    }
                    0
                },
            }
        },
    }
}

/// The commits retained by the walk from position `k` on, given the buckets
/// already `seen`: the first commit of every new bucket, skipping commits
/// newer than `end` and stopping at the first commit older than `start`.
pub open spec fn selected_from(
    cs: Seq<(Seq<u8>, int)>,
    g: Granularity,
    start: Option<i64>,
    end: Option<i64>,
    k: int,
    seen: Set<int>,
) -> Seq<(Seq<u8>, int)>
    decreases cs.len() - k,
{
    if k < 0 || k >= cs.len() {
        Seq::empty()
    } else if start matches Some(s) && cs[k].1 < s {
        Seq::empty()
    } else if (end matches Some(e) && cs[k].1 > e) || seen.contains(spec_bucket(g, cs[k].1)) {
        selected_from(cs, g, start, end, k + 1, seen)
    } else {
        seq![cs[k]] + selected_from(cs, g, start, end, k + 1, seen.insert(spec_bucket(g, cs[k].1)))
    }
}

/// Stable insertion by committer time.
pub open spec fn insert_by_time(cs: Seq<(Seq<u8>, int)>, x: (Seq<u8>, int)) -> Seq<(Seq<u8>, int)>
    decreases cs.len(),
{
    if cs.len() == 0 {
        seq![x]
    } else if cs.last().1 <= x.1 {
        cs.push(x)
    } else {
        insert_by_time(cs.drop_last(), x).push(cs.last())
    }
}

/// Stable sort by committer time, oldest first.
pub open spec fn sort_by_time(cs: Seq<(Seq<u8>, int)>) -> Seq<(Seq<u8>, int)>
    decreases cs.len(),
{
    if cs.len() == 0 {
        Seq::empty()
    } else {
        insert_by_time(sort_by_time(cs.drop_last()), cs.last())
    }
}

pub open spec fn time_sorted(cs: Seq<(Seq<u8>, int)>) -> bool {
    forall|i: int, j: int| 0 <= i < j < cs.len() ==> (#[trigger] cs[i]).1 <= (#[trigger] cs[j]).1
}

proof fn lemma_insert_by_time_sorted(cs: Seq<(Seq<u8>, int)>, x: (Seq<u8>, int))
    requires
        time_sorted(cs),
    ensures
        time_sorted(insert_by_time(cs, x)),
        insert_by_time(cs, x).len() == cs.len() + 1,
        forall|e: (Seq<u8>, int)| #![trigger insert_by_time(cs, x).contains(e)]
            insert_by_time(cs, x).contains(e) <==> (cs.contains(e) || e == x),
    decreases cs.len(),
{
    if cs.len() == 0 {
        assert(insert_by_time(cs, x) =~= seq![x]);
        assert forall|e: (Seq<u8>, int)| insert_by_time(cs, x).contains(e) implies
            (cs.contains(e) || e == x) by {
            let i = choose|i: int|
                0 <= i < insert_by_time(cs, x).len() && insert_by_time(cs, x)[i] == e;
            assert(i == 0);
        }
        assert(insert_by_time(cs, x)[0] == x);
    } else if cs.last().1 <= x.1 {
        let r = cs.push(x);
        assert forall|i: int, j: int| 0 <= i < j < r.len() implies
            (#[trigger] r[i]).1 <= (#[trigger] r[j]).1 by {
            if j < cs.len() {
                assert(cs[i].1 <= cs[j].1);
            } else if i < cs.len() - 1 {
                assert(cs[i].1 <= cs[cs.len() - 1].1);
            }
        }
        assert forall|e: (Seq<u8>, int)| r.contains(e) implies (cs.contains(e) || e == x) by {
            let i = choose|i: int| 0 <= i < r.len() && r[i] == e;
            if i < cs.len() {
                assert(cs[i] == e);
            }
        }
        assert forall|e: (Seq<u8>, int)| (cs.contains(e) || e == x) implies r.contains(e) by {
            if e == x {
                assert(r[cs.len() as int] == x);
            } else {
                let i = choose|i: int| 0 <= i < cs.len() && cs[i] == e;
                assert(r[i] == e);
            }
        }
    } else {
        assert(time_sorted(cs.drop_last())) by {
            assert forall|i: int, j: int| 0 <= i < j < cs.drop_last().len() implies
                (#[trigger] cs.drop_last()[i]).1 <= (#[trigger] cs.drop_last()[j]).1 by {
                assert(cs[i].1 <= cs[j].1);
            }
        }
        lemma_insert_by_time_sorted(cs.drop_last(), x);
        let inner = insert_by_time(cs.drop_last(), x);
        let r = inner.push(cs.last());
        assert forall|i: int, j: int| 0 <= i < j < r.len() implies
            (#[trigger] r[i]).1 <= (#[trigger] r[j]).1 by {
            if j < inner.len() {
                assert(inner[i].1 <= inner[j].1);
            } else {
                assert(inner.contains(inner[i]));
                if cs.drop_last().contains(inner[i]) {
                    let k = choose|k: int|
                        0 <= k < cs.drop_last().len() && cs.drop_last()[k] == inner[i];
                    assert(cs[k].1 <= cs[cs.len() - 1].1);
                } else {
                    assert(inner[i] == x);
                }
            }
        }
        assert forall|e: (Seq<u8>, int)| r.contains(e) implies (cs.contains(e) || e == x) by {
            let i = choose|i: int| 0 <= i < r.len() && r[i] == e;
            if i < inner.len() {
                assert(inner.contains(e));
                if cs.drop_last().contains(e) {
                    let k = choose|k: int|
                        0 <= k < cs.drop_last().len() && cs.drop_last()[k] == e;
                    assert(cs[k] == e);
                }
            } else {
                assert(cs[cs.len() - 1] == e);
            }
        }
        assert forall|e: (Seq<u8>, int)| (cs.contains(e) || e == x) implies r.contains(e) by {
            if e == x || cs.drop_last().contains(e) {
                if e != x {
                    let k = choose|k: int|
                        0 <= k < cs.drop_last().len() && cs.drop_last()[k] == e;
                    assert(cs.drop_last()[k] == e);
                }
                assert(inner.contains(e));
                let i = choose|i: int| 0 <= i < inner.len() && inner[i] == e;
                assert(r[i] == e);
            } else {
                let k = choose|k: int| 0 <= k < cs.len() && cs[k] == e;
                if k < cs.len() - 1 {
                    assert(cs.drop_last()[k] == e);
                    assert(inner.contains(e));
                    let i = choose|i: int| 0 <= i < inner.len() && inner[i] == e;
                    assert(r[i] == e);
                } else {
                    assert(r.last() == e);
                }
            }
        }
    }
}

pub proof fn lemma_sort_by_time_sorted(cs: Seq<(Seq<u8>, int)>)
    ensures
        time_sorted(sort_by_time(cs)),
        sort_by_time(cs).len() == cs.len(),
        forall|e: (Seq<u8>, int)| #![trigger sort_by_time(cs).contains(e)]
            sort_by_time(cs).contains(e) <==> cs.contains(e),
    decreases cs.len(),
{
    if cs.len() > 0 {
        lemma_sort_by_time_sorted(cs.drop_last());
        lemma_insert_by_time_sorted(sort_by_time(cs.drop_last()), cs.last());
        assert forall|e: (Seq<u8>, int)| sort_by_time(cs).contains(e) implies cs.contains(e) by {
            if cs.drop_last().contains(e) {
                let k = choose|k: int| 0 <= k < cs.drop_last().len() && cs.drop_last()[k] == e;
                assert(cs[k] == e);
            } else {
                assert(cs[cs.len() - 1] == e);
            }
        }
        assert forall|e: (Seq<u8>, int)| cs.contains(e) implies sort_by_time(cs).contains(e) by {
            let k = choose|k: int| 0 <= k < cs.len() && cs[k] == e;
            if k < cs.len() - 1 {
                assert(cs.drop_last()[k] == e);
            }
        }
    } else {
        assert(forall|e: (Seq<u8>, int)| !cs.contains(e));
        assert(forall|e: (Seq<u8>, int)| !sort_by_time(cs).contains(e));
    }
}

/// The per-bucket sampling of a walked history: retain the first commit of
/// every bucket within the bounds, then order the retained commits oldest
/// first.  The returned committer times are non-decreasing.
pub fn list_commits_with_granularity(
    commits: Vec<SampleCommit>,
    granularity: Granularity,
    start: Option<i64>,
    end: Option<i64>,
) -> (r: Vec<SampleCommit>)
    requires
        forall|k: int| 0 <= k < commits@.len()
            ==> MIN_SAMPLE_SECONDS <= (#[trigger] commits@[k]).seconds <= MAX_SAMPLE_SECONDS,
    ensures
        r@.map_values(|c: SampleCommit| c@)
            == sort_by_time(selected_from(
                commits@.map_values(|c: SampleCommit| c@),
                granularity,
                start,
                end,
                0,
                Set::empty(),
            )),
        forall|i: int, j: int|
            0 <= i < j < r@.len() ==> (#[trigger] r@[i]).seconds <= (#[trigger] r@[j]).seconds,
{
    let ghost cviews = commits@.map_values(|c: SampleCommit| c@);
    let n = commits.len();
    let mut kept: Vec<SampleCommit> = Vec::new();
    let mut kept_buckets: Vec<i64> = Vec::new();
    let ghost mut seen: Set<int> = Set::empty();
    let mut commits = commits;
    let mut k: usize = 0;
    while k < n
        invariant_except_break
            n == cviews.len(),
            commits@.len() == n,
            forall|j: int| 0 <= j < n ==> (#[trigger] commits@[j])@ == cviews[j],
            forall|j: int| 0 <= j < n
                ==> MIN_SAMPLE_SECONDS <= (#[trigger] commits@[j]).seconds
                    <= MAX_SAMPLE_SECONDS,
            k <= n,
            kept_buckets@.len() == kept@.len(),
            forall|j: int| 0 <= j < kept@.len()
                ==> (#[trigger] kept_buckets@[j]) as int == spec_bucket(granularity, kept@[j]@.1),
            seen == kept_buckets@.map_values(|b: i64| b as int).to_set(),
            selected_from(cviews, granularity, start, end, 0, Set::empty())
                == kept@.map_values(|c: SampleCommit| c@)
                    + selected_from(cviews, granularity, start, end, k as int, seen),
        ensures
            selected_from(cviews, granularity, start, end, 0, Set::empty())
                == kept@.map_values(|c: SampleCommit| c@),
        decreases n - k,
    {
        let secs = commits[k].seconds;
        proof {
            assert(commits@[k as int]@ == cviews[k as int]);
            assert(cviews[k as int].1 == secs as int);
        }
        if let Some(s) = start {
            if secs < s {
                proof {
                    assert(selected_from(cviews, granularity, start, end, k as int, seen)
                        =~= Seq::<(Seq<u8>, int)>::empty());
                    assert(kept@.map_values(|c: SampleCommit| c@)
                        + Seq::<(Seq<u8>, int)>::empty()
                        =~= kept@.map_values(|c: SampleCommit| c@));
                }
                break;
            }
        }
        let too_new = match end {
            Some(e) => secs > e,
            None => false,
        };
        let b = bucket_id(granularity, secs);
        let mut in_seen = false;
        if !too_new {
            // already sampled a commit of this bucket?
            let nb = kept_buckets.len();
            let mut f: usize = 0;
            while f < nb
                invariant_except_break
                    nb == kept_buckets@.len(),
                    f <= nb,
                    in_seen == false,
                    forall|j: int| 0 <= j < f ==> (#[trigger] kept_buckets@[j]) != b,
                ensures
                    in_seen ==> exists|j: int|
                        0 <= j < kept_buckets@.len() && (#[trigger] kept_buckets@[j]) == b,
                    !in_seen ==> forall|j: int|
                        0 <= j < kept_buckets@.len() ==> (#[trigger] kept_buckets@[j]) != b,
                decreases nb - f,
            {
                if kept_buckets[f] == b {
                    in_seen = true;
                    proof {
                        assert(kept_buckets@[f as int] == b);
                    }
                    break;
                }
                f = f + 1;
            }
        }
        let skip = too_new || in_seen;
        proof {
            let m = kept_buckets@.map_values(|x: i64| x as int);
            if in_seen {
                let j = choose|j: int|
                    0 <= j < kept_buckets@.len() && (#[trigger] kept_buckets@[j]) == b;
                assert(m[j] == b as int);
                assert(m.contains(b as int));
                assert(seen.contains(b as int));
            }
            if !too_new && !in_seen {
                assert(!seen.contains(b as int)) by {
                    if seen.contains(b as int) {
                        assert(m.contains(b as int));
                        let j = choose|j: int| 0 <= j < m.len() && m[j] == b as int;
                        assert(kept_buckets@[j] == b);
                    }
                }
            }
        }
        if skip {
            proof {
                assert(selected_from(cviews, granularity, start, end, k as int, seen)
                    == selected_from(cviews, granularity, start, end, k as int + 1, seen)) by {
                    if !((end matches Some(e) && cviews[k as int].1 > e)) {
                        assert(seen.contains(spec_bucket(granularity, cviews[k as int].1)));
                    }
                }
            }
        } else {
            let c = SampleCommit {
                id: copy_id(&commits[k].id),
                seconds: secs,
            };
            proof {
                assert(c@ == cviews[k as int]);
                assert(selected_from(cviews, granularity, start, end, k as int, seen)
                    == seq![cviews[k as int]] + selected_from(
                        cviews,
                        granularity,
                        start,
                        end,
                        k as int + 1,
                        seen.insert(spec_bucket(granularity, cviews[k as int].1)),
                    ));
            }
            let ghost kept0 = kept@;
            let ghost kb0 = kept_buckets@;
            kept.push(c);
            kept_buckets.push(b);
            proof {
                seen = seen.insert(b as int);
                assert(kept@.map_values(|x: SampleCommit| x@)
                    =~= kept0.map_values(|x: SampleCommit| x@).push(cviews[k as int]));
                assert(kept_buckets@.map_values(|x: i64| x as int)
                    =~= kb0.map_values(|x: i64| x as int).push(b as int));
                assert(kept_buckets@.map_values(|x: i64| x as int).to_set()
                    =~= kb0.map_values(|x: i64| x as int).to_set().insert(b as int)) by {
                    let m0 = kb0.map_values(|x: i64| x as int);
                    let m1 = kept_buckets@.map_values(|x: i64| x as int);
                    assert forall|v: int| m1.to_set().contains(v) implies
                        m0.to_set().contains(v) || v == b as int by {
                        let j = choose|j: int| 0 <= j < m1.len() && m1[j] == v;
                        if j < m0.len() {
                            assert(m0[j] == v);
                        }
                    }
                    assert forall|v: int| m0.to_set().contains(v) || v == b as int implies
                        m1.to_set().contains(v) by {
                        if m0.to_set().contains(v) {
                            let j = choose|j: int| 0 <= j < m0.len() && m0[j] == v;
                            assert(m1[j] == v);
                        } else {
                            assert(m1[m1.len() - 1] == b as int);
                        }
                    }
                }
                assert(kept@.map_values(|x: SampleCommit| x@)
                    + selected_from(cviews, granularity, start, end, k as int + 1, seen)
                    =~= kept0.map_values(|x: SampleCommit| x@)
                        + (seq![cviews[k as int]] + selected_from(
                            cviews,
                            granularity,
                            start,
                            end,
                            k as int + 1,
                            seen,
                        )));
            }
        }
        k = k + 1;
    }
    proof {
        if k == n {
            assert(selected_from(cviews, granularity, start, end, n as int, seen)
                =~= Seq::<(Seq<u8>, int)>::empty());
            assert(kept@.map_values(|c: SampleCommit| c@)
                + Seq::<(Seq<u8>, int)>::empty()
                =~= kept@.map_values(|c: SampleCommit| c@));
        }
    }
    sort_samples(kept)
}

/// A fresh copy of a commit identifier.
fn copy_id(a: &Vec<u8>) -> (r: Vec<u8>)
    ensures
        r@ == a@,
{
    let n = a.len();
    let mut r: Vec<u8> = Vec::new();
    let mut i: usize = 0;
    while i < n
        invariant
            n == a@.len(),
            i <= n,
            r@ == a@.take(i as int),
        decreases n - i,
    {
        r.push(a[i]);
        proof {
            assert(r@ =~= a@.take(i + 1));
        }
        i = i + 1;
    }
    proof {
        assert(r@ =~= a@);
    }
    r
}

/// Stable insertion sort by committer time, oldest first.
fn sort_samples(samples: Vec<SampleCommit>) -> (r: Vec<SampleCommit>)
    ensures
        r@.map_values(|c: SampleCommit| c@)
            == sort_by_time(samples@.map_values(|c: SampleCommit| c@)),
        forall|i: int, j: int|
            0 <= i < j < r@.len() ==> (#[trigger] r@[i]).seconds <= (#[trigger] r@[j]).seconds,
{
    let ghost orig = samples@.map_values(|c: SampleCommit| c@);
    let mut v = samples;
    let n = v.len();
    if n == 0 {
        proof {
            assert(v@.map_values(|c: SampleCommit| c@) =~= sort_by_time(orig));
        }
        return v;
    }
    proof {
        let s1 = orig.take(1);
        assert(s1.drop_last() =~= Seq::<(Seq<u8>, int)>::empty());
        assert(sort_by_time(s1) == insert_by_time(sort_by_time(s1.drop_last()), s1.last()));
        assert(v@.take(1).map_values(|c: SampleCommit| c@) =~= sort_by_time(orig.take(1)));
        lemma_sort_by_time_sorted(orig.take(1));
    }
    let mut i: usize = 1;
    while i < n
        invariant
            n == v@.len(),
            orig.len() == n,
            1 <= i <= n,
            forall|k: int| i <= k < n ==> (#[trigger] v@[k])@ == orig[k],
            v@.take(i as int).map_values(|c: SampleCommit| c@)
                == sort_by_time(orig.take(i as int)),
            time_sorted(v@.take(i as int).map_values(|c: SampleCommit| c@)),
        decreases n - i,
    {
        let ghost cur = v@;
        let ghost views_p = v@.take(i as int).map_values(|c: SampleCommit| c@);
        let x = v.remove(i);
        let ghost rem = v@;
        let x_secs = x.seconds;
        proof {
            assert(x@ == orig[i as int]);
            assert(x@.1 == x_secs as int);
        }
        let mut j: usize = i;
        while j > 0 && v[j - 1].seconds > x_secs
            invariant
                j <= i,
                i < n,
                rem == v@,
                rem.len() == n - 1,
                forall|k: int| 0 <= k < i ==> rem[k] == cur[k],
                forall|k: int| j <= k < i ==> (#[trigger] rem[k]).seconds > x_secs,
            decreases j,
        {
            j = j - 1;
        }
        let ghost jj = j as int;
        v.insert(j, x);
        proof {
            let fin = v@;
            assert(fin == rem.insert(jj, x));
            let xv = x@;
            assert(jj > 0 ==> views_p[jj - 1].1 <= xv.1) by {
                if jj > 0 {
                    assert(rem[jj - 1] == cur[jj - 1]);
                    assert(views_p[jj - 1] == cur[jj - 1]@);
                }
            }
            assert(jj < i ==> xv.1 < views_p[jj].1) by {
                if jj < i {
                    assert(rem[jj].seconds > x_secs);
                    assert(views_p[jj] == cur[jj]@);
                }
            }
            lemma_insert_by_time_at(views_p, xv, jj);
            lemma_insert_by_time_sorted(views_p, xv);
            assert(fin.take(i + 1).map_values(|c: SampleCommit| c@)
                =~= views_p.subrange(0, jj) + seq![xv] + views_p.subrange(jj, i as int)) by {
                assert forall|k: int| 0 <= k < i + 1 implies
                    fin.take(i + 1).map_values(|c: SampleCommit| c@)[k]
                        == (views_p.subrange(0, jj) + seq![xv]
                            + views_p.subrange(jj, i as int))[k] by {
                    if k < jj {
                        assert(fin[k] == rem[k]);
                        assert(rem[k] == cur[k]);
                    } else if k == jj {
                        assert(fin[k] == x);
                    } else {
                        assert(fin[k] == rem[k - 1]);
                        assert(rem[k - 1] == cur[k - 1]);
                    }
                }
            }
            let s_next = orig.take(i + 1);
            assert(s_next.drop_last() =~= orig.take(i as int));
            assert(s_next.last() == orig[i as int]);
            assert(sort_by_time(s_next)
                == insert_by_time(sort_by_time(s_next.drop_last()), s_next.last()));
            assert(sort_by_time(s_next.drop_last()) == views_p);
            assert(s_next.last() == xv);
            assert(fin.take(i + 1).map_values(|c: SampleCommit| c@)
                == sort_by_time(orig.take(i + 1)));
            assert forall|k: int| i + 1 <= k < n implies (#[trigger] fin[k])@ == orig[k] by {
                assert(fin[k] == rem[k - 1]);
                assert(rem[k - 1] == cur[k]);
            }
        }
        i = i + 1;
    }
    proof {
        assert(v@.take(n as int) =~= v@);
        assert(orig.take(n as int) =~= orig);
        let m = v@.map_values(|c: SampleCommit| c@);
        assert forall|a: int, b: int| 0 <= a < b < v@.len() implies
            (#[trigger] v@[a]).seconds <= (#[trigger] v@[b]).seconds by {
            assert(m[a].1 <= m[b].1);
        }
    }
    v
}

/// Stable insertion lands at the boundary position.
proof fn lemma_insert_by_time_at(cs: Seq<(Seq<u8>, int)>, x: (Seq<u8>, int), j: int)
    requires
        time_sorted(cs),
        0 <= j <= cs.len(),
        j > 0 ==> cs[j - 1].1 <= x.1,
        j < cs.len() ==> x.1 < cs[j].1,
    ensures
        insert_by_time(cs, x) == cs.subrange(0, j) + seq![x] + cs.subrange(j, cs.len() as int),
    decreases cs.len(),
{
    if cs.len() == 0 {
        assert(insert_by_time(cs, x) =~= cs.subrange(0, 0) + seq![x] + cs.subrange(0, 0));
    } else if cs.last().1 <= x.1 {
        assert(j == cs.len()) by {
            if j < cs.len() {
                assert(cs[j].1 <= cs[cs.len() - 1].1) by {
                    if j < cs.len() - 1 {
                        assert(time_sorted(cs));
                    }
                }
            }
        }
        assert(cs.push(x) =~= cs.subrange(0, j) + seq![x] + cs.subrange(j, cs.len() as int));
    } else {
        assert(j < cs.len()) by {
            if j == cs.len() {
                assert(cs[j - 1].1 <= x.1);
            }
        }
        let dl = cs.drop_last();
        assert(time_sorted(dl)) by {
            assert forall|a: int, b: int| 0 <= a < b < dl.len() implies
                (#[trigger] dl[a]).1 <= (#[trigger] dl[b]).1 by {
                assert(cs[a].1 <= cs[b].1);
            }
        }
        assert(j < dl.len() ==> x.1 < dl[j].1) by {
            if j < dl.len() {
                assert(dl[j] == cs[j]);
            }
        }
        if j > 0 {
            assert(dl[j - 1] == cs[j - 1]);
        }
        lemma_insert_by_time_at(dl, x, j);
        assert(insert_by_time(cs, x)
            =~= cs.subrange(0, j) + seq![x] + cs.subrange(j, cs.len() as int)) by {
            assert(insert_by_time(cs, x) == insert_by_time(dl, x).push(cs.last()));
            assert(insert_by_time(dl, x)
                == dl.subrange(0, j) + seq![x] + dl.subrange(j, dl.len() as int));
            assert forall|k: int| 0 <= k < j implies dl.subrange(0, j)[k] == cs.subrange(0, j)[k] by {
                assert(dl[k] == cs[k]);
            }
        }
    }
}

} // verus!
