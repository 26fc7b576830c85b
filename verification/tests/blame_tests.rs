use gix_of_theseus::FileBlame;

/// Look a cohort up in the flat stats list.
fn stat(stats: &[(u64, u64)], cohort: u64) -> Option<u64> {
    stats.iter().find(|e| e.0 == cohort).map(|e| e.1)
}

/// Expand a blame into one cohort per line.
fn expand_file_blame(fb: &FileBlame) -> Vec<u64> {
    let mut out: Vec<u64> = Vec::with_capacity(fb.total_lines() as usize);
    for (start, end, cohort) in fb.ranges() {
        for _ in 0..(end - start) {
            out.push(cohort);
        }
    }
    out
}

#[test]
fn test_cohort_stats() {
    let blame = FileBlame::new(0, 2022);
    let blame = blame.apply_line_diffs(vec![(0..0, 0..10, 2022), (0..0, 5..10, 2023)]);

    let stats = blame.cohort_stats();
    assert_eq!(stat(&stats, 2022), Some(10));
    assert_eq!(stat(&stats, 2023), Some(5));
}

#[test]
fn test_apply_line_diffs_equal_length_hunks_near_end() {
    let blame = FileBlame::new(160, 2000);

    // Multiple replacements near the end; total_lines must stay unchanged
    let diffs = vec![
        (46..49, 46..49, 2006),
        (65..66, 65..66, 2006),
        (92..95, 92..95, 2006),
        (99..100, 99..100, 2006),
        (104..105, 104..105, 2006),
        (106..107, 106..107, 2006),
        (109..110, 109..110, 2006),
        (111..113, 111..113, 2006),
        (138..145, 138..145, 2006),
        (146..149, 146..149, 2006),
        (153..154, 153..154, 2006),
    ];

    let old_total = blame.total_lines();
    let blame = blame.apply_line_diffs(diffs);
    assert_eq!(blame.total_lines(), old_total);
    blame.validate().unwrap();
}

#[test]
fn test_apply_line_diffs_insertion_then_deletion_tail() {
    let blame = FileBlame::new(200, 1999);
    // Insert 5 lines at position 50
    let blame = blame.apply_line_diffs(vec![(50..50, 50..55, 2001)]);
    assert_eq!(blame.total_lines(), 205);
    blame.validate().unwrap();
    // Now delete last 10 lines (from position 195..205 -> 195..195)
    let blame = blame.apply_line_diffs(vec![(195..205, 195..195, 2002)]);
    assert_eq!(blame.total_lines(), 195);
    blame.validate().unwrap();
}

#[test]
fn test_apply_line_diffs_insertion_and_followup_replacements() {
    let blame = FileBlame::new(150, 2015);
    // Insert 4 lines at 20
    let blame = blame.apply_line_diffs(vec![(20..20, 20..24, 2016)]);
    assert_eq!(blame.total_lines(), 154);
    // Multiple replacements later in the file
    let old_total = blame.total_lines();
    let blame =
        blame.apply_line_diffs(vec![(100..102, 100..102, 2017), (150..151, 150..151, 2017)]);
    assert_eq!(blame.total_lines(), old_total);
    blame.validate().unwrap();
}

#[test]
fn test_apply_line_diffs_resume_would_land_at_final_end() {
    let blame = FileBlame::new(100, 1);
    // Hunk 1: simple replacement 90..95 -> 90..95 (delta 0)
    // Hunk 2: delete tail 95..100 -> 95..95 (delta -5)
    let diffs = vec![(90..95, 90..95, 2), (95..100, 95..95, 3)];
    let blame = blame.apply_line_diffs(diffs);
    assert_eq!(blame.total_lines(), 95);
    blame.validate().unwrap();
}

/// Reference implementation that stores one cohort per line.
struct NaiveBlame {
    lines: Vec<u64>,
}

impl NaiveBlame {
    fn new(total_lines: u32, cohort: u64) -> Self {
        NaiveBlame { lines: vec![cohort; total_lines as usize] }
    }

    fn apply_line_diffs(
        &mut self,
        mut line_diffs: Vec<(std::ops::Range<u32>, std::ops::Range<u32>, u64)>,
    ) {
        // Apply from bottom to top so indices of earlier hunks are unaffected
        line_diffs.sort_by_key(|(before, _, _)| before.start);
        line_diffs.reverse();
        for (before, after, cohort) in line_diffs.into_iter() {
            let start = before.start as usize;
            let before_len = (before.end - before.start) as usize;
            if before_len > 0 {
                self.lines.drain(start..start + before_len);
            }
            let after_len = (after.end - after.start) as usize;
            if after_len > 0 {
                self.lines.splice(start..start, vec![cohort; after_len]);
            }
        }
    }
}

#[test]
fn matches_naive_on_mixed_batches() {
    let mut fb = FileBlame::new(30, 1);
    let mut naive = NaiveBlame::new(30, 1);
    let batches: Vec<Vec<(std::ops::Range<u32>, std::ops::Range<u32>, u64)>> = vec![
        vec![(0..3, 0..1, 2), (5..5, 5..9, 3), (10..20, 10..12, 4)],
        vec![(1..2, 1..2, 5), (4..8, 4..4, 6)],
        vec![(0..0, 0..7, 7)],
        vec![(3..6, 3..6, 8), (9..12, 9..9, 9), (13..13, 13..18, 2)],
    ];
    for batch in batches {
        fb = fb.apply_line_diffs(batch.clone());
        naive.apply_line_diffs(batch);
        assert_eq!(fb.total_lines() as usize, naive.lines.len());
        assert_eq!(expand_file_blame(&fb), naive.lines);
        fb.validate().unwrap();
    }
}

#[test]
fn empty_batch_is_identity() {
    let blame = FileBlame::new(42, 7);
    let before_lines = expand_file_blame(&blame);
    let before_stats = blame.cohort_stats();
    let after = blame.apply_line_diffs(vec![]);
    assert_eq!(after.total_lines(), 42);
    assert_eq!(expand_file_blame(&after), before_lines);
    let mut after_stats = after.cohort_stats();
    let mut before_stats = before_stats;
    before_stats.sort();
    after_stats.sort();
    assert_eq!(after_stats, before_stats);
    after.validate().unwrap();
}

#[test]
fn shuffled_batch_gives_same_result() {
    let blame = FileBlame::new(50, 1);
    let batch = vec![(2..4, 2..5, 10), (8..8, 8..11, 11), (20..30, 20..21, 12), (40..45, 40..45, 13)];
    let mut shuffled = batch.clone();
    shuffled.reverse();
    shuffled.swap(0, 2);
    let a = blame.apply_line_diffs(batch);
    let b = blame.apply_line_diffs(shuffled);
    assert_eq!(a.total_lines(), b.total_lines());
    assert_eq!(expand_file_blame(&a), expand_file_blame(&b));
}

#[test]
fn ranges_partition_the_file() {
    let blame = FileBlame::new(10, 1);
    let blame = blame.apply_line_diffs(vec![(2..4, 2..7, 2), (8..9, 8..8, 3)]);
    let rs = blame.ranges();
    // contiguous cover from 0 to total_lines
    assert_eq!(rs[0].0, 0);
    for w in rs.windows(2) {
        assert_eq!(w[0].1, w[1].0);
        assert_ne!(w[0].2, w[1].2);
    }
    assert_eq!(rs.last().unwrap().1, blame.total_lines());
    assert_eq!(rs.len(), blame.range_count());
}

#[test]
fn merge_adjacent_ranges_keeps_lines() {
    let blame = FileBlame::new(12, 5);
    let mut blame = blame.apply_line_diffs(vec![(3..6, 3..6, 6)]);
    let before = expand_file_blame(&blame);
    blame.merge_adjacent_ranges();
    assert_eq!(expand_file_blame(&blame), before);
    blame.validate().unwrap();
}

#[test]
fn stats_track_exact_split() {
    // replace the middle two lines of a four-line file
    let blame = FileBlame::new(4, 100);
    let blame = blame.apply_line_diffs(vec![(1..3, 1..3, 200)]);
    assert_eq!(blame.total_lines(), 4);
    let stats = blame.cohort_stats();
    assert_eq!(stat(&stats, 100), Some(2));
    assert_eq!(stat(&stats, 200), Some(2));
    assert_eq!(expand_file_blame(&blame), vec![100, 200, 200, 100]);
}

#[test]
fn huge_file_stays_compact() {
    // the encoding never expands, so a file at the line-number limit is cheap
    let blame = FileBlame::new(u32::MAX, 1);
    let blame = blame.apply_line_diffs(vec![(0..1, 0..1, 2)]);
    assert_eq!(blame.total_lines(), u32::MAX);
    assert_eq!(blame.range_count(), 2);
    blame.validate().unwrap();
}

#[test]
fn delete_whole_file() {
    let blame = FileBlame::new(7, 4);
    let blame = blame.apply_line_diffs(vec![(0..7, 0..0, 5)]);
    assert_eq!(blame.total_lines(), 0);
    assert_eq!(blame.range_count(), 0);
    assert!(blame.cohort_stats().is_empty());
    blame.validate().unwrap();
}
