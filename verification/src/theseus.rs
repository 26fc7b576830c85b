//! The decisions of the history walk: what a tree-diff change contributes to
//! the blame state, and how blob bytes are counted as lines.
//!
//! The walk itself — object-database reads, tree and blob diffing, worker
//! pools and the action channel — lives outside this library; it consults
//! `plan_change` for each change that a tree diff reports and executes the
//! returned steps in order, and uses `count_lines` to turn blob bytes into a
//! line count.

use vstd::prelude::*;

verus! {

/// Metadata of one sampled commit, as the output tables need it.
#[derive(Debug)]
pub struct CommitCohortInfo {
    pub id: Vec<u8>,
    pub time_string: String,
    pub year: u32,
}

/// The result of a full history walk: one metadata row per sampled commit,
/// and, for each sampled commit, the per-cohort line tally of the tree at
/// that commit (cohorts are indices into `commit_cohort_info`).
pub struct TheseusResult {
    pub commit_cohort_info: Vec<CommitCohortInfo>,
    pub cohort_data: Vec<Vec<(u64, i64)>>,
}

// ---------------------------------------------------------------------------
// Line counting.
// ---------------------------------------------------------------------------

/// Number of newline bytes in `bytes`.
pub open spec fn newline_count(bytes: Seq<u8>) -> int
    decreases bytes.len(),
{
    if bytes.len() == 0 {
        0
    } else {
        newline_count(bytes.drop_last()) + if bytes.last() == 10u8 { 1int } else { 0int }
    }
}

/// The line count of a blob: its newline terminators, plus one for a final
/// fragment that lacks a terminator.
pub open spec fn line_count_spec(bytes: Seq<u8>) -> int {
    newline_count(bytes) + if bytes.len() > 0 && bytes.last() != 10u8 { 1int } else { 0int }
}

/// Count the lines of a blob's bytes: every newline ends a line, and a
/// trailing fragment without a newline counts as one more.
pub fn count_lines(bytes: &Vec<u8>) -> (r: u32)
    requires
        bytes@.len() <= u32::MAX,
    ensures
        r == line_count_spec(bytes@),
{
    let n = bytes.len();
    let mut cnt: u32 = 0;
    let mut i: usize = 0;
    while i < n
        invariant
            n == bytes@.len(),
            n <= u32::MAX,
            i <= n,
            cnt <= i,
            cnt == newline_count(bytes@.take(i as int)),
        decreases n - i,
    {
        if bytes[i] == 10 {
            cnt = cnt + 1;
        }
        proof {
            assert(bytes@.take(i + 1).drop_last() =~= bytes@.take(i as int));
            assert(bytes@.take(i + 1).last() == bytes@[i as int]);
        }
        i = i + 1;
    }
    proof {
        assert(bytes@.take(n as int) =~= bytes@);
    }
    if n > 0 && bytes[n - 1] != 10 {
        proof {
            lemma_newline_count_le(bytes@.drop_last());
            assert(newline_count(bytes@) == newline_count(bytes@.drop_last()));
        }
        cnt + 1
    } else {
        cnt
    }
}

/// There are no more newlines than bytes.
proof fn lemma_newline_count_le(bytes: Seq<u8>)
    ensures
        0 <= newline_count(bytes) <= bytes.len(),
    decreases bytes.len(),
{
    if bytes.len() > 0 {
        lemma_newline_count_le(bytes.drop_last());
    }
}

// ---------------------------------------------------------------------------
// Change planning.
// ---------------------------------------------------------------------------

/// One change that a tree diff reports between two samples, reduced to what
/// the dispatch decisions read: locations, whether each side is a blob, and
/// whether a rewrite came with a content diff.
pub enum TreeChange {
    Addition { location: Vec<u8> },
    Deletion { location: Vec<u8> },
    Modification { location: Vec<u8>, prev_is_blob: bool, new_is_blob: bool },
    Rewrite {
        source_location: Vec<u8>,
        location: Vec<u8>,
        prev_is_blob: bool,
        new_is_blob: bool,
        has_diff: bool,
    },
}

/// The mathematical value of a tree change.
pub ghost enum ChangeV {
    Addition { location: Seq<u8> },
    Deletion { location: Seq<u8> },
    Modification { location: Seq<u8>, prev_is_blob: bool, new_is_blob: bool },
    Rewrite {
        source_location: Seq<u8>,
        location: Seq<u8>,
        prev_is_blob: bool,
        new_is_blob: bool,
        has_diff: bool,
    },
}

impl View for TreeChange {
    type V = ChangeV;

    open spec fn view(&self) -> ChangeV {
        match self {
            TreeChange::Addition { location } => ChangeV::Addition { location: location@ },
            TreeChange::Deletion { location } => ChangeV::Deletion { location: location@ },
            TreeChange::Modification { location, prev_is_blob, new_is_blob } =>
                ChangeV::Modification {
                    location: location@,
                    prev_is_blob: *prev_is_blob,
                    new_is_blob: *new_is_blob,
                },
            TreeChange::Rewrite {
                source_location,
                location,
                prev_is_blob,
                new_is_blob,
                has_diff,
            } => ChangeV::Rewrite {
                source_location: source_location@,
                location: location@,
                prev_is_blob: *prev_is_blob,
                new_is_blob: *new_is_blob,
                has_diff: *has_diff,
            },
        }
    }
}

/// One step the walk must execute for a change: read the new blob and send
/// `AddFile`, send `DeleteFile`, run the blob line-differ and send
/// `ModifyFile`, or send `RenameFile`.
pub enum DispatchStep {
    AddFrom { path: Vec<u8> },
    Delete { path: Vec<u8> },
    Diff { path: Vec<u8> },
    Rename { old_path: Vec<u8>, new_path: Vec<u8> },
}

/// The mathematical value of a dispatch step.
pub ghost enum StepV {
    AddFrom { path: Seq<u8> },
    Delete { path: Seq<u8> },
    Diff { path: Seq<u8> },
    Rename { old_path: Seq<u8>, new_path: Seq<u8> },
}

impl View for DispatchStep {
    type V = StepV;

    open spec fn view(&self) -> StepV {
        match self {
            DispatchStep::AddFrom { path } => StepV::AddFrom { path: path@ },
            DispatchStep::Delete { path } => StepV::Delete { path: path@ },
            DispatchStep::Diff { path } => StepV::Diff { path: path@ },
            DispatchStep::Rename { old_path, new_path } =>
                StepV::Rename { old_path: old_path@, new_path: new_path@ },
        }
    }
}

/// The mode-transition rules: a change whose sides are both blobs is a
/// content change; a side that stops or starts being a blob turns the change
/// into a deletion or an addition; a change between two non-blobs is dropped.
pub open spec fn spec_mode_steps(
    location: Seq<u8>,
    prev_is_blob: bool,
    new_is_blob: bool,
    content_steps: Seq<StepV>,
) -> Seq<StepV> {
    if prev_is_blob && new_is_blob {
        content_steps
    } else if !prev_is_blob && new_is_blob {
        seq![StepV::AddFrom { path: location }]
    } else if prev_is_blob && !new_is_blob {
        seq![StepV::Delete { path: location }]
    } else {
        Seq::empty()
    }
}

/// What the walk must do for one reported change.
pub open spec fn spec_plan(change: ChangeV) -> Seq<StepV> {
    match change {
        ChangeV::Addition { location } => seq![StepV::AddFrom { path: location }],
        ChangeV::Deletion { location } => seq![StepV::Delete { path: location }],
        ChangeV::Modification { location, prev_is_blob, new_is_blob } => spec_mode_steps(
            location,
            prev_is_blob,
            new_is_blob,
            seq![StepV::Diff { path: location }],
        ),
        ChangeV::Rewrite { source_location, location, prev_is_blob, new_is_blob, has_diff } =>
            seq![StepV::Rename { old_path: source_location, new_path: location }]
                + spec_mode_steps(
                location,
                prev_is_blob,
                new_is_blob,
                if has_diff {
                    seq![StepV::Diff { path: location }]
                } else {
                    Seq::empty()
                },
            ),
    }
}

/// Translate one tree-diff change into the steps the walk executes, in order.
/// A rename is emitted before the rewrite's own content step, so that the
/// aggregator sees the file under its new path first.
pub fn plan_change(change: TreeChange) -> (r: Vec<DispatchStep>)
    ensures
        r@.map_values(|s: DispatchStep| s@) == spec_plan(change@),
{
    let mut r: Vec<DispatchStep> = Vec::new();
    match change {
        TreeChange::Addition { location } => {
            r.push(DispatchStep::AddFrom { path: location });
        },
        TreeChange::Deletion { location } => {
            r.push(DispatchStep::Delete { path: location });
        },
        TreeChange::Modification { location, prev_is_blob, new_is_blob } => {
            if prev_is_blob && new_is_blob {
                r.push(DispatchStep::Diff { path: location });
            } else if !prev_is_blob && new_is_blob {
                r.push(DispatchStep::AddFrom { path: location });
            } else if prev_is_blob && !new_is_blob {
                r.push(DispatchStep::Delete { path: location });
            }
        },
        TreeChange::Rewrite { source_location, location, prev_is_blob, new_is_blob, has_diff } => {
            let loc_copy = copy_path(&location);
            r.push(DispatchStep::Rename { old_path: source_location, new_path: loc_copy });
            if prev_is_blob && new_is_blob {
                if has_diff {
                    r.push(DispatchStep::Diff { path: location });
                }
            } else if !prev_is_blob && new_is_blob {
                r.push(DispatchStep::AddFrom { path: location });
            } else if prev_is_blob && !new_is_blob {
                r.push(DispatchStep::Delete { path: location });
            }
        },
    }
    proof {
        assert(r@.map_values(|s: DispatchStep| s@) =~= spec_plan(change@));
    }
    r
}

/// A fresh copy of a path.
fn copy_path(a: &Vec<u8>) -> (r: Vec<u8>)
    ensures
        r@ == a@,
{
    let n = a.len();
    let mut r: Vec<u8> = Vec::new();
    let mut i: usize = 0;
    while i < n
        invariant
            n == a@.len(),
            i <= n,
            r@ == a@.take(i as int),
        decreases n - i,
    {
        r.push(a[i]);
        proof {
            assert(r@ =~= a@.take(i + 1));
        }
        i = i + 1;
    }
    proof {
        assert(r@ =~= a@);
    }
    r
}

} // verus!
