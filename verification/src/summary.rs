//! The report of one workflow: one row per run whose timing arrived, in the
//! order of the runs. A timing record finds its run by the number of the
//! run, never by the place at which it arrived.

use crate::model::{
    lemma_views_of_push, timing_of, views_of, RunView, TimingView, Timings, Workflow, WorkflowRuns,
    WorkflowView,
};
use vstd::prelude::*;

verus! {

/// What a row of the report is.
pub struct RowView {
    pub repository_name: Seq<char>,
    pub workflow_id: int,
    pub workflow_name: Seq<char>,
    pub workflow_run_id: int,
    pub workflow_run_created_at: Seq<char>,
    pub workflow_run_status: Seq<char>,
    pub billable_total_ms: int,
    pub run_duration_ms: int,
}

/// One row of the report: a run with its timing.
#[derive(Debug)]
pub struct WorkflowRunSummary {
    pub repository_name: String,
    pub workflow_id: i64,
    pub workflow_name: String,
    pub workflow_run_id: i64,
    pub workflow_run_created_at: String,
    pub workflow_run_status: String,
    pub billable_total_ms: i64,
    pub run_duration_ms: i64,
}

impl View for WorkflowRunSummary {
    type V = RowView;

    open spec fn view(&self) -> RowView {
        RowView {
            repository_name: self.repository_name@,
            workflow_id: self.workflow_id as int,
            workflow_name: self.workflow_name@,
            workflow_run_id: self.workflow_run_id as int,
            workflow_run_created_at: self.workflow_run_created_at@,
            workflow_run_status: self.workflow_run_status@,
            billable_total_ms: self.billable_total_ms as int,
            run_duration_ms: self.run_duration_ms as int,
        }
    }
}

impl Default for WorkflowRunSummary {
    /// The row of empty texts and zero counts.
    fn default() -> (row: Self)
        ensures
            row@ == (RowView {
                repository_name: Seq::empty(),
                workflow_id: 0,
                workflow_name: Seq::empty(),
                workflow_run_id: 0,
                workflow_run_created_at: Seq::empty(),
                workflow_run_status: Seq::empty(),
                billable_total_ms: 0,
                run_duration_ms: 0,
            }),
    {
        WorkflowRunSummary {
            repository_name: String::new(),
            workflow_id: 0,
            workflow_name: String::new(),
            workflow_run_id: 0,
            workflow_run_created_at: String::new(),
            workflow_run_status: String::new(),
            billable_total_ms: 0,
            run_duration_ms: 0,
        }
    }
}

impl Clone for WorkflowRunSummary {
    fn clone(&self) -> (copy: Self)
        ensures
            copy@ == self@,
    {
        WorkflowRunSummary {
            repository_name: self.repository_name.clone(),
            workflow_id: self.workflow_id,
            workflow_name: self.workflow_name.clone(),
            workflow_run_id: self.workflow_run_id,
            workflow_run_created_at: self.workflow_run_created_at.clone(),
            workflow_run_status: self.workflow_run_status.clone(),
            billable_total_ms: self.billable_total_ms,
            run_duration_ms: self.run_duration_ms,
        }
    }
}

/// A count of milliseconds, or zero where the provider gave none.
pub open spec fn or_zero(count: Option<int>) -> int {
    match count {
        Some(ms) => ms,
        None => 0,
    }
}

/// The row that pairs `run` with `timing`.
pub open spec fn row_of(
    repository_name: Seq<char>,
    workflow: WorkflowView,
    run: RunView,
    timing: TimingView,
) -> RowView {
    RowView {
        repository_name,
        workflow_id: workflow.id,
        workflow_name: workflow.name,
        workflow_run_id: run.id,
        workflow_run_created_at: run.created_at,
        workflow_run_status: run.status,
        billable_total_ms: or_zero(timing.billable_total_ms),
        run_duration_ms: or_zero(timing.run_duration_ms),
    }
}

/// The test that a timing record of the run is among `timings`.
pub open spec fn is_timed(timings: Seq<TimingView>) -> spec_fn(RunView) -> bool {
    |run: RunView| timing_of(timings, run.id) is Some
}

/// The row of a run that has a timing record among `timings`.
pub open spec fn timed_row(
    repository_name: Seq<char>,
    workflow: WorkflowView,
    timings: Seq<TimingView>,
) -> spec_fn(RunView) -> RowView {
    |run: RunView| row_of(repository_name, workflow, run, timing_of(timings, run.id)->0)
}

/// The rows of a report: for each run that has a timing record, in the
/// order of `runs`, the run with the first timing record that carries its
/// number. The order of `timings` decides nothing else.
pub open spec fn summary_rows(
    repository_name: Seq<char>,
    workflow: WorkflowView,
    runs: Seq<RunView>,
    timings: Seq<TimingView>,
) -> Seq<RowView> {
    runs.filter(is_timed(timings)).map_values(timed_row(repository_name, workflow, timings))
}

/// The report of one workflow.
#[derive(Debug)]
pub struct WorkflowSummary {
    values: Vec<WorkflowRunSummary>,
}

impl View for WorkflowSummary {
    type V = Seq<RowView>;

    closed spec fn view(&self) -> Seq<RowView> {
        views_of(self.values@)
    }
}

impl Default for WorkflowSummary {
    /// The report without rows.
    fn default() -> (summary: Self)
        ensures
            summary@ == Seq::<RowView>::empty(),
    {
        let summary = WorkflowSummary { values: Vec::new() };
        proof {
            assert(summary@ =~= Seq::<RowView>::empty());
        }
        summary
    }
}

impl WorkflowSummary {
    /// Joins the runs of a workflow with the timing records that arrived
    /// for them. A run without a timing record gets no row.
    pub fn new(
        repository_name: String,
        workflow: Workflow,
        workflow_runs: WorkflowRuns,
        timings: Timings,
    ) -> (summary: WorkflowSummary)
        ensures
            summary@ == summary_rows(repository_name@, workflow@, workflow_runs@, timings@),
    {
        let runs = workflow_runs.get_workflow_runs();
        let ghost test = is_timed(timings@);
        let ghost to_row = timed_row(repository_name@, workflow@, timings@);
        let mut reports: Vec<WorkflowRunSummary> = Vec::new();
        let mut i: usize = 0;
        proof {
            assert(views_of(runs@).take(0) =~= Seq::<RunView>::empty());
            views_of(runs@).take(0).lemma_filter_len(test);
            assert(views_of(reports@) =~= views_of(runs@).take(0).filter(test).map_values(to_row));
        }
        while i < runs.len()
            invariant
                i <= runs@.len(),
                views_of(runs@) == workflow_runs@,
                test == is_timed(timings@),
                to_row == timed_row(repository_name@, workflow@, timings@),
                views_of(reports@) == views_of(runs@).take(i as int).filter(test).map_values(
                    to_row,
                ),
            decreases runs.len() - i,
        {
            let run = &runs[i];
            let ghost seen = views_of(runs@).take(i as int);
            proof {
                assert(views_of(runs@).take(i + 1) == seen.push(run@));
                seen.lemma_filter_push(run@, test);
            }
            match timings.find(run.get_id()) {
                Some(timing) => {
                    let billable_total_ms: i64 = match timing.get_billable_total_ms() {
                        Some(ms) => ms,
                        None => 0,
                    };
                    let run_duration_ms: i64 = match timing.get_run_duration_ms() {
                        Some(ms) => ms,
                        None => 0,
                    };
                    let row = WorkflowRunSummary {
                        repository_name: repository_name.clone(),
                        workflow_id: workflow.get_id(),
                        workflow_name: workflow.get_name(),
                        workflow_run_id: run.get_id(),
                        workflow_run_created_at: run.get_created_at(),
                        workflow_run_status: run.get_status(),
                        billable_total_ms,
                        run_duration_ms,
                    };
                    proof {
                        lemma_views_of_push(reports@, row);
                        assert(row@ == to_row(run@));
                        assert(seen.filter(test).push(run@).map_values(to_row) =~= seen.filter(
                            test,
                        ).map_values(to_row).push(to_row(run@)));
                    }
                    reports.push(row);
                },
                None => {},
            }
            i += 1;
        }
        proof {
            assert(views_of(runs@).take(i as int) == views_of(runs@));
        }
        WorkflowSummary { values: reports }
    }

    /// The number of rows.
    pub fn get_length(&self) -> (n: usize)
        ensures
            n == self@.len(),
    {
        self.values.len()
    }
}

/// The rows to write for one workflow, and the number that names the
/// report.
#[derive(Debug)]
pub struct Report {
    /// The number of the workflow, which names the report.
    pub name: i64,
    /// The rows, in the order of the runs.
    pub rows: Vec<WorkflowRunSummary>,
}

impl WorkflowSummary {
    /// A copy of the rows, in order.
    pub fn get_rows(&self) -> (rows: Vec<WorkflowRunSummary>)
        ensures
            views_of(rows@) == self@,
    {
        let rows = self.values.clone();
        proof {
            assert(views_of(rows@) =~= views_of(self.values@));
        }
        rows
    }

    /// The report to write under the number `name`: nothing where the
    /// summary has no row, otherwise all its rows.
    pub fn to_csv(&self, name: i64) -> (report: Option<Report>)
        ensures
            match report {
                Some(report) => self@.len() > 0 && report.name == name && views_of(report.rows@)
                    == self@,
                None => self@.len() == 0,
            },
    {
        if self.get_length() == 0 {
            return None;
        }
        Some(Report { name, rows: self.get_rows() })
    }
}

/// No two of `timings` belong to the same run.
pub open spec fn one_timing_per_run(timings: Seq<TimingView>) -> bool {
    forall|i: int, j: int|
        0 <= i < j < timings.len() ==> (#[trigger] timings[i]).run_id != (
        #[trigger] timings[j]).run_id
}

/// The timing record found for a run is one of the records and carries the
/// number of the run; none is found only where no record carries it.
pub proof fn lemma_timing_of(timings: Seq<TimingView>, run_id: int)
    ensures
        match timing_of(timings, run_id) {
            Some(timing) => timings.contains(timing) && timing.run_id == run_id,
            None => forall|i: int|
                0 <= i < timings.len() ==> (#[trigger] timings[i]).run_id != run_id,
        },
    decreases timings.len(),
{
    if timings.len() == 0 {
    } else if timings[0].run_id == run_id {
        assert(timings[0] == timings[0]);
    } else {
        let rest = timings.drop_first();
        lemma_timing_of(rest, run_id);
        match timing_of(rest, run_id) {
            Some(timing) => {
                let k = choose|k: int| 0 <= k < rest.len() && rest[k] == timing;
                assert(timings[k + 1] == timing);
            },
            None => {
                assert forall|i: int| 0 <= i < timings.len() implies (#[trigger] timings[i]).run_id
                    != run_id by {
                    if i > 0 {
                        assert(timings[i] == rest[i - 1]);
                    }
                }
            },
        }
    }
}

/// The order in which the timing records arrived decides nothing: two
/// lists that hold the same records, each record of another run, give the
/// same rows in the same order.
pub proof fn lemma_rows_ignore_arrival_order(
    repository_name: Seq<char>,
    workflow: WorkflowView,
    runs: Seq<RunView>,
    first: Seq<TimingView>,
    second: Seq<TimingView>,
)
    requires
        one_timing_per_run(first),
        one_timing_per_run(second),
        forall|timing: TimingView| first.contains(timing) <==> second.contains(timing),
    ensures
        summary_rows(repository_name, workflow, runs, first) == summary_rows(
            repository_name,
            workflow,
            runs,
            second,
        ),
{
    assert forall|run_id: int| #[trigger]
        timing_of(first, run_id) == timing_of(second, run_id) by {
        lemma_same_timing(first, second, run_id);
    }
    let kept_first = runs.filter(is_timed(first));
    let kept_second = runs.filter(is_timed(second));
    assert(kept_first == kept_second) by {
        lemma_same_runs_timed(runs, first, second);
    }
    assert(kept_first.map_values(timed_row(repository_name, workflow, first))
        =~= kept_second.map_values(timed_row(repository_name, workflow, second)));
}

/// Two lists that hold the same records, each record of another run, find
/// the same record for every run.
proof fn lemma_same_timing(first: Seq<TimingView>, second: Seq<TimingView>, run_id: int)
    requires
        one_timing_per_run(first),
        one_timing_per_run(second),
        forall|timing: TimingView| first.contains(timing) <==> second.contains(timing),
    ensures
        timing_of(first, run_id) == timing_of(second, run_id),
{
    lemma_timing_of(first, run_id);
    lemma_timing_of(second, run_id);
    match timing_of(first, run_id) {
        Some(a) => {
            assert(second.contains(a));
            let k = choose|k: int| 0 <= k < second.len() && second[k] == a;
            match timing_of(second, run_id) {
                Some(b) => {
                    let m = choose|m: int| 0 <= m < second.len() && second[m] == b;
                    assert(k == m);
                },
                None => {
                    assert(second[k].run_id == run_id);
                },
            }
        },
        None => {
            match timing_of(second, run_id) {
                Some(b) => {
                    assert(first.contains(b));
                    let m = choose|m: int| 0 <= m < first.len() && first[m] == b;
                    assert(first[m].run_id == run_id);
                },
                None => {},
            }
        },
    }
}

/// Two lists that find the same record for every run keep the same runs.
proof fn lemma_same_runs_timed(
    runs: Seq<RunView>,
    first: Seq<TimingView>,
    second: Seq<TimingView>,
)
    requires
        forall|run_id: int| #[trigger] timing_of(first, run_id) == timing_of(second, run_id),
    ensures
        runs.filter(is_timed(first)) == runs.filter(is_timed(second)),
    decreases runs.len(),
{
    reveal(Seq::filter);
    if runs.len() > 0 {
        lemma_same_runs_timed(runs.drop_last(), first, second);
    }
}

} // verus!
