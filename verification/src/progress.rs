//! The progress observer: what the pool's counters say about a phase.

use vstd::prelude::*;

verus! {

/// What one look at the worker pool shows of the phase under way.
#[derive(Debug, Clone, Copy, PartialEq, Eq)]
pub struct ProgressReport {
    /// The hashing tasks of the phase that are done.
    pub completed: u64,
    /// Whether no task is running or waiting: no more results are coming.
    pub quiescent: bool,
}

/// The tasks that are done, of `total` submitted, when `active` are running and
/// `queued` are waiting: the rest of them, and none where the counters show more
/// tasks outstanding than were submitted.
pub open spec fn completed_of(total: u64, active: usize, queued: usize) -> int {
    if active + queued <= total {
        total - (active + queued)
    } else {
        0
    }
}

/// What the counters show of a phase in which `total` hashing tasks were
/// submitted: the tasks that are done, and whether none is running or waiting.
pub open spec fn report_of(total: u64, active: usize, queued: usize) -> ProgressReport {
    ProgressReport {
        completed: completed_of(total, active, queued) as u64,
        quiescent: active == 0 && queued == 0,
    }
}

/// Reads the pool's counters for a phase in which `total_files` hashing tasks
/// were submitted.
pub fn track_progress(total_files: u64, active: usize, queued: usize) -> (report: ProgressReport)
    ensures
        report.quiescent == (active == 0 && queued == 0),
        report.completed == completed_of(total_files, active, queued),
        report == report_of(total_files, active, queued),
{
    let outstanding: u128 = active as u128 + queued as u128;
    let completed: u64 = if outstanding <= total_files as u128 {
        (total_files as u128 - outstanding) as u64
    } else {
        0
    };
    ProgressReport { completed, quiescent: active == 0 && queued == 0 }
}

} // verus!
