mod actions;
mod blame;
mod diffs;
mod formatter;
mod repo_blame_snapshot;
mod sampling;
mod theseus;

pub use actions::Action;
pub use blame::BlameRange;
pub use blame::FileBlame;
pub use diffs::DiffV;
pub use formatter::CohortData;
pub use formatter::format_cohort_data;
pub use formatter::sum_commit_data_by_year;
pub use repo_blame_snapshot::RepositoryBlameSnapshot;
pub use sampling::Granularity;
pub use sampling::MAX_SAMPLE_SECONDS;
pub use sampling::MIN_SAMPLE_SECONDS;
pub use sampling::SampleCommit;
pub use sampling::list_commits_with_granularity;
pub use theseus::CommitCohortInfo;
pub use theseus::DispatchStep;
pub use theseus::TheseusResult;
pub use theseus::TreeChange;
pub use theseus::count_lines;
pub use theseus::plan_change;
