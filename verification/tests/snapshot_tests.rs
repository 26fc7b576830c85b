use gix_of_theseus::{
    Action, CohortData, CommitCohortInfo, RepositoryBlameSnapshot, TheseusResult,
    sum_commit_data_by_year,
};

fn tally_of(snap: &RepositoryBlameSnapshot) -> Vec<(u64, i64)> {
    let mut v = snap.repository_cohort_stats();
    v.sort();
    v.retain(|e| e.1 != 0);
    v
}

fn tally_sum(snap: &RepositoryBlameSnapshot) -> i64 {
    snap.repository_cohort_stats().iter().map(|e| e.1).sum()
}

#[test]
fn conservation_across_actions() {
    let mut snap = RepositoryBlameSnapshot::new(b"c0".to_vec());
    snap.add_file(&b"a.rs".to_vec(), 10, 0);
    snap.add_file(&b"b.rs".to_vec(), 5, 0);
    assert_eq!(tally_sum(&snap), 15);

    // modify a.rs: delete 2 lines, insert 4 of cohort 1
    snap.modify_file(&b"a.rs".to_vec(), vec![(3..5, 3..7, 1)]);
    assert_eq!(tally_sum(&snap), 17);

    // rename does not change the tally
    let before = tally_of(&snap);
    snap.rename_file(b"b.rs".to_vec(), b"c.rs".to_vec()).unwrap();
    assert_eq!(tally_of(&snap), before);
    assert_eq!(tally_sum(&snap), 17);

    // delete a.rs: its 12 lines leave
    snap.delete_file(&b"a.rs".to_vec());
    assert_eq!(tally_sum(&snap), 5);
}

#[test]
fn rename_preserves_stats_pointwise() {
    let mut snap = RepositoryBlameSnapshot::new(b"c0".to_vec());
    snap.add_file(&b"x".to_vec(), 7, 3);
    snap.add_file(&b"y".to_vec(), 2, 4);
    let before = snap.repository_cohort_stats();
    snap.rename_file(b"x".to_vec(), b"z".to_vec()).unwrap();
    assert_eq!(snap.repository_cohort_stats(), before);
}

#[test]
fn rename_missing_path_is_an_error() {
    let mut snap = RepositoryBlameSnapshot::new(b"c0".to_vec());
    snap.add_file(&b"x".to_vec(), 1, 0);
    assert!(snap.rename_file(b"nope".to_vec(), b"other".to_vec()).is_err());
    assert!(snap.rename_file(b"x".to_vec(), b"y".to_vec()).is_ok());
}

#[test]
fn actions_drive_the_snapshot() {
    let mut snap = RepositoryBlameSnapshot::new(b"c0".to_vec());
    snap.handle_action(Action::SetCommitId(b"c1".to_vec()));
    snap.handle_action(Action::AddFile { path: b"f".to_vec(), total_lines: 3, cohort: 0 });
    snap.handle_action(Action::FinishCommit);
    snap.handle_action(Action::SetCommitId(b"c2".to_vec()));
    snap.handle_action(Action::ModifyFile { path: b"f".to_vec(), line_diffs: vec![(0..1, 0..3, 1)] });
    snap.handle_action(Action::FinishCommit);

    assert_eq!(snap.commit_results.len(), 2);
    let mut first = snap.commit_results[0].clone();
    first.sort();
    assert_eq!(first, vec![(0, 3)]);
    let mut second = snap.commit_results[1].clone();
    second.sort();
    second.retain(|e| e.1 != 0);
    assert_eq!(second, vec![(0, 2), (1, 3)]);
}

/// A constructed three-commit history: the row sums of the formatted matrix
/// must equal the tree's total line count at each sample.
#[test]
fn three_commit_history_row_sums() {
    let mut snap = RepositoryBlameSnapshot::new(b"c0".to_vec());

    // commit 0 (year 2020): two files
    snap.handle_action(Action::AddFile { path: b"a".to_vec(), total_lines: 8, cohort: 0 });
    snap.handle_action(Action::AddFile { path: b"b".to_vec(), total_lines: 4, cohort: 0 });
    snap.handle_action(Action::FinishCommit);

    // commit 1 (year 2021): modify a, delete b
    snap.handle_action(Action::ModifyFile { path: b"a".to_vec(), line_diffs: vec![(0..2, 0..5, 1)] });
    snap.handle_action(Action::DeleteFile { path: b"b".to_vec() });
    snap.handle_action(Action::FinishCommit);

    // commit 2 (year 2021): add c, rename a
    snap.handle_action(Action::AddFile { path: b"c".to_vec(), total_lines: 6, cohort: 2 });
    snap.handle_action(Action::RenameFile { old_path: b"a".to_vec(), new_path: b"a2".to_vec() });
    snap.handle_action(Action::FinishCommit);

    let expected_totals: Vec<i64> = vec![12, 11, 17];

    let infos = vec![
        CommitCohortInfo { id: b"c0".to_vec(), time_string: String::from("2020-03-01 10:00:00"), year: 2020 },
        CommitCohortInfo { id: b"c1".to_vec(), time_string: String::from("2021-02-01 10:00:00"), year: 2021 },
        CommitCohortInfo { id: b"c2".to_vec(), time_string: String::from("2021-07-01 10:00:00"), year: 2021 },
    ];
    let result = TheseusResult { commit_cohort_info: infos, cohort_data: snap.commit_results.clone() };
    let data: CohortData = sum_commit_data_by_year(result);

    assert_eq!(data.labels, vec!["Code added in 2020", "Code added in 2021"]);
    assert_eq!(data.ts.len(), 3);
    assert_eq!(data.y.len(), 2);
    for row in &data.y {
        assert_eq!(row.len(), 3);
    }
    for i in 0..3 {
        let col_sum: i64 = data.y.iter().map(|row| row[i]).sum();
        assert_eq!(col_sum, expected_totals[i]);
    }
    // the per-year split of the final sample: 6 lines of 2020 (a's untouched
    // tail), 5 + 6 lines of 2021
    assert_eq!(data.y[0][2], 6);
    assert_eq!(data.y[1][2], 11);
}

#[test]
fn formatter_groups_by_year() {
    let infos = vec![
        CommitCohortInfo { id: b"x".to_vec(), time_string: String::from("2019-01-01 00:00:00"), year: 2019 },
        CommitCohortInfo { id: b"y".to_vec(), time_string: String::from("2019-06-01 00:00:00"), year: 2019 },
        CommitCohortInfo { id: b"z".to_vec(), time_string: String::from("2020-01-01 00:00:00"), year: 2020 },
    ];
    // one snapshot: 3 lines from commit 0, 4 from commit 1, 5 from commit 2
    let cohort_data = vec![vec![(0u64, 3i64), (1u64, 4i64), (2u64, 5i64)]];
    let result = TheseusResult { commit_cohort_info: infos, cohort_data };
    let data = sum_commit_data_by_year(result);
    assert_eq!(data.labels, vec!["Code added in 2019", "Code added in 2020"]);
    assert_eq!(data.ts, vec!["2019-01-01 00:00:00", "2019-06-01 00:00:00", "2020-01-01 00:00:00"]);
    // both 2019 cohorts fold into one row
    assert_eq!(data.y, vec![vec![7], vec![5]]);
}

#[test]
fn refused_actions_leave_the_snapshot_unchanged() {
    let mut snap = RepositoryBlameSnapshot::new(b"c0".to_vec());
    assert!(snap.try_handle_action(Action::AddFile { path: b"f".to_vec(), total_lines: 3, cohort: 0 }));
    // an unknown path is refused
    assert!(!snap.try_handle_action(Action::DeleteFile { path: b"nope".to_vec() }));
    // a duplicate path is refused
    assert!(!snap.try_handle_action(Action::AddFile { path: b"f".to_vec(), total_lines: 1, cohort: 1 }));
    // an out-of-bounds delete range is refused
    assert!(!snap.try_handle_action(Action::ModifyFile { path: b"f".to_vec(), line_diffs: vec![(2..9, 2..2, 1)] }));
    assert_eq!(tally_sum(&snap), 3);
    // a well-formed action is still accepted afterwards
    assert!(snap.try_handle_action(Action::ModifyFile { path: b"f".to_vec(), line_diffs: vec![(0..1, 0..1, 1)] }));
    assert_eq!(tally_sum(&snap), 3);
}
