//! The batch orchestrator's plan.
//!
//! One report run works through the archive files of the source directory
//! in the numeric-aware order: each archive is extracted, its content file
//! decoded, and its records' fields extracted.  The decisions are laid out
//! here as a plan; carrying it out (unpacking, reading, logging) is the
//! caller's part.  How many archives a run processes at most, and after
//! every how many processed files a progress notice is due, are explicit
//! configuration handed in by the caller.

use vstd::prelude::*;
use crate::extract::{output_file_name, output_name_spec};
use crate::sorter::{sort_files, sort_spec, views};

verus! {

/// Mathematical image of one task of the plan.
pub struct FileTaskModel {
    pub archive_name: Seq<char>,
    pub output_name: Seq<char>,
    pub progress_notice: bool,
}

/// One archive to process: its file name, the name of the content file its
/// extraction yields, and whether a progress notice is due after it.
pub struct FileTask {
    pub archive_name: String,
    pub output_name: String,
    pub progress_notice: bool,
}

impl View for FileTask {
    type V = FileTaskModel;

    open spec fn view(&self) -> FileTaskModel {
        FileTaskModel {
            archive_name: self.archive_name@,
            output_name: self.output_name@,
            progress_notice: self.progress_notice,
        }
    }
}

impl DeepView for FileTask {
    type V = FileTaskModel;

    open spec fn deep_view(&self) -> FileTaskModel {
        self.view()
    }
}

/// The number of tasks a run takes on: all files, or the given cap.
pub open spec fn plan_len(total: int, max_items: Option<usize>) -> int {
    match max_items {
        Option::Some(m) => if total <= m as int {
            total
        } else {
            m as int
        },
        Option::None => total,
    }
}

/// The plan of one run over the given archive file names: the first
/// `max_items` of their sorted arrangement (all of them when no cap is
/// given), each with its output file name, every `progress_interval`-th
/// one marked for a progress notice.
pub open spec fn plan_spec(
    files: Seq<Seq<char>>,
    max_items: Option<usize>,
    progress_interval: usize,
) -> Seq<FileTaskModel> {
    let sorted = sort_spec(files);
    Seq::new(
        plan_len(sorted.len() as int, max_items) as nat,
        |i: int|
            FileTaskModel {
                archive_name: sorted[i],
                output_name: output_name_spec(sorted[i]),
                progress_notice: (i + 1) % (progress_interval as int) == 0,
            },
    )
}

/// Lays out one report run: sorts the archive file names, keeps the first
/// `max_items` of them (all when none is given), derives each archive's
/// output file name, and marks every `progress_interval`-th task for a
/// progress notice.
pub fn run_report(files: Vec<String>, max_items: Option<usize>, progress_interval: usize) -> (plan:
    Vec<FileTask>)
    requires
        progress_interval >= 1,
    ensures
        plan.deep_view() == plan_spec(views(files@), max_items, progress_interval),
{
    let ghost goal = plan_spec(views(files@), max_items, progress_interval);
    let sorted = sort_files(files);
    let limit = match max_items {
        Option::Some(m) => if sorted.len() <= m {
            sorted.len()
        } else {
            m
        },
        Option::None => sorted.len(),
    };
    let mut plan: Vec<FileTask> = Vec::new();
    proof {
        assert(limit as int == goal.len());
    }
    let mut i: usize = 0;
    while i < limit
        invariant
            i <= limit,
            limit <= sorted@.len(),
            progress_interval >= 1,
            views(sorted@) == sort_spec(views(files@)),
            goal == plan_spec(views(files@), max_items, progress_interval),
            limit as int == goal.len(),
            plan.deep_view() =~= goal.take(i as int),
        decreases limit - i,
    {
        let name = &sorted[i];
        proof {
            assert(views(sorted@)[i as int] == name@);
        }
        let output_name = output_file_name(name.as_str());
        let progress_notice = (i + 1) % progress_interval == 0;
        let task = FileTask { archive_name: name.clone(), output_name, progress_notice };
        let ghost prev = plan.deep_view();
        proof {
            assert(task.deep_view() == goal[i as int]);
        }
        plan.push(task);
        proof {
            assert(plan.deep_view() =~= prev.push(task.deep_view()));
            assert(plan.deep_view() =~= goal.take(i as int + 1));
        }
        i += 1;
    }
    proof {
        assert(plan.deep_view() =~= goal);
    }
    plan
}

} // verus!
