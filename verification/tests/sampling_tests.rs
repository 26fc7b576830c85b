use gix_of_theseus::{
    DispatchStep, Granularity, SampleCommit, TreeChange, count_lines,
    list_commits_with_granularity, plan_change,
};

fn commit(id: &[u8], seconds: i64) -> SampleCommit {
    SampleCommit { id: id.to_vec(), seconds }
}

const DAY: i64 = 86_400;

#[test]
fn weekly_sampling_keeps_first_per_week() {
    // Unix epoch (1970-01-01) was a Thursday; day 3 was the first Sunday.
    // Walk order is newest first.
    let commits = vec![
        commit(b"n3", 9 * DAY),     // second week (days 3..9)
        commit(b"n2", 4 * DAY),     // second week again: skipped
        commit(b"n1", 2 * DAY),     // first week (days 0..2)
        commit(b"n0", 0),           // first week again: skipped
    ];
    let r = list_commits_with_granularity(commits, Granularity::Weekly, None, None);
    let ids: Vec<&[u8]> = r.iter().map(|c| c.id.as_slice()).collect();
    // oldest first, one per week, each the most recent of its week
    assert_eq!(ids, vec![b"n1".as_slice(), b"n3".as_slice()]);
    assert!(r.windows(2).all(|w| w[0].seconds <= w[1].seconds));
}

#[test]
fn monthly_sampling_distinguishes_months() {
    // 2021-01-05, 2021-01-25 and 2021-02-02, newest first
    let jan5: i64 = 1_609_804_800;
    let jan25: i64 = jan5 + 20 * DAY;
    let feb2: i64 = jan5 + 28 * DAY;
    let commits = vec![commit(b"c", feb2), commit(b"b", jan25), commit(b"a", jan5)];
    let r = list_commits_with_granularity(commits, Granularity::Monthly, None, None);
    let ids: Vec<&[u8]> = r.iter().map(|c| c.id.as_slice()).collect();
    // January is represented by its most recent commit (b), February by c
    assert_eq!(ids, vec![b"b".as_slice(), b"c".as_slice()]);
}

#[test]
fn yearly_sampling_and_bounds() {
    let y2020: i64 = 1_577_836_800; // 2020-01-01
    let y2021: i64 = 1_609_459_200; // 2021-01-01
    let y2022: i64 = 1_640_995_200; // 2022-01-01
    let commits = vec![
        commit(b"new", y2022),
        commit(b"mid", y2021),
        commit(b"old", y2020),
    ];
    // an `end` bound skips newer commits; a `start` bound ends the walk
    let r = list_commits_with_granularity(
        commits,
        Granularity::Yearly,
        Some(y2021 - DAY),
        Some(y2021 + DAY),
    );
    let ids: Vec<&[u8]> = r.iter().map(|c| c.id.as_slice()).collect();
    assert_eq!(ids, vec![b"mid".as_slice()]);
}

#[test]
fn sampled_times_are_non_decreasing() {
    // deliberately non-monotone walk times
    let commits = vec![
        commit(b"a", 100 * DAY),
        commit(b"b", 250 * DAY),
        commit(b"c", 50 * DAY),
        commit(b"d", 180 * DAY),
    ];
    let r = list_commits_with_granularity(commits, Granularity::Weekly, None, None);
    assert_eq!(r.len(), 4);
    assert!(r.windows(2).all(|w| w[0].seconds <= w[1].seconds));
}

#[test]
fn count_lines_conventions() {
    assert_eq!(count_lines(&b"".to_vec()), 0);
    assert_eq!(count_lines(&b"one\ntwo\n".to_vec()), 2);
    assert_eq!(count_lines(&b"one\ntwo".to_vec()), 2);
    assert_eq!(count_lines(&b"\n\n\n".to_vec()), 3);
    assert_eq!(count_lines(&b"no newline".to_vec()), 1);
}

fn step_names(steps: &[DispatchStep]) -> Vec<String> {
    steps
        .iter()
        .map(|s| match s {
            DispatchStep::AddFrom { path } => format!("add:{}", String::from_utf8_lossy(path)),
            DispatchStep::Delete { path } => format!("del:{}", String::from_utf8_lossy(path)),
            DispatchStep::Diff { path } => format!("diff:{}", String::from_utf8_lossy(path)),
            DispatchStep::Rename { old_path, new_path } => format!(
                "ren:{}->{}",
                String::from_utf8_lossy(old_path),
                String::from_utf8_lossy(new_path)
            ),
        })
        .collect()
}

#[test]
fn plan_addition_deletion() {
    let steps = plan_change(TreeChange::Addition { location: b"f".to_vec() });
    assert_eq!(step_names(&steps), vec!["add:f"]);
    let steps = plan_change(TreeChange::Deletion { location: b"f".to_vec() });
    assert_eq!(step_names(&steps), vec!["del:f"]);
}

#[test]
fn plan_modification_mode_transitions() {
    let m = |p: bool, n: bool| {
        plan_change(TreeChange::Modification {
            location: b"f".to_vec(),
            prev_is_blob: p,
            new_is_blob: n,
        })
    };
    assert_eq!(step_names(&m(true, true)), vec!["diff:f"]);
    assert_eq!(step_names(&m(false, true)), vec!["add:f"]);
    assert_eq!(step_names(&m(true, false)), vec!["del:f"]);
    assert!(step_names(&m(false, false)).is_empty());
}

#[test]
fn plan_rewrite_orders_rename_first() {
    let steps = plan_change(TreeChange::Rewrite {
        source_location: b"old".to_vec(),
        location: b"new".to_vec(),
        prev_is_blob: true,
        new_is_blob: true,
        has_diff: true,
    });
    assert_eq!(step_names(&steps), vec!["ren:old->new", "diff:new"]);

    let steps = plan_change(TreeChange::Rewrite {
        source_location: b"old".to_vec(),
        location: b"new".to_vec(),
        prev_is_blob: true,
        new_is_blob: true,
        has_diff: false,
    });
    assert_eq!(step_names(&steps), vec!["ren:old->new"]);

    let steps = plan_change(TreeChange::Rewrite {
        source_location: b"old".to_vec(),
        location: b"new".to_vec(),
        prev_is_blob: false,
        new_is_blob: true,
        has_diff: false,
    });
    assert_eq!(step_names(&steps), vec!["ren:old->new", "add:new"]);
}

#[test]
fn sampling_handles_commits_before_the_epoch() {
    // Sunday 1969-12-28 started the week that contains the epoch; Saturday
    // 1969-12-27 (day -5) belongs to the week before.
    let commits = vec![
        commit(b"jan2", DAY),      // epoch week
        commit(b"dec31", -DAY),    // epoch week too: skipped
        commit(b"dec27", -5 * DAY), // previous week
    ];
    let r = list_commits_with_granularity(commits, Granularity::Weekly, None, None);
    let ids: Vec<&[u8]> = r.iter().map(|c| c.id.as_slice()).collect();
    assert_eq!(ids, vec![b"dec27".as_slice(), b"jan2".as_slice()]);

    // December 1969 and January 1970 are distinct monthly buckets
    let commits = vec![commit(b"j", 5 * DAY), commit(b"d", -5 * DAY)];
    let r = list_commits_with_granularity(commits, Granularity::Monthly, None, None);
    let ids: Vec<&[u8]> = r.iter().map(|c| c.id.as_slice()).collect();
    assert_eq!(ids, vec![b"d".as_slice(), b"j".as_slice()]);
}
