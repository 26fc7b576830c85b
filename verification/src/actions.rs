//! Mutation messages consumed by the aggregator.

use vstd::prelude::*;
use crate::blame::{CohortKey, LineDiffs, LineNumber};

verus! {

/// One mutation of the repository snapshot.  Paths are opaque byte strings;
/// commit identifiers are opaque byte strings as well.
pub enum Action {
    AddFile { path: Vec<u8>, total_lines: LineNumber, cohort: CohortKey },
    DeleteFile { path: Vec<u8> },
    RenameFile { old_path: Vec<u8>, new_path: Vec<u8> },
    ModifyFile { path: Vec<u8>, line_diffs: LineDiffs },
    FinishCommit,
    SetCommitId(Vec<u8>),
}

} // verus!
