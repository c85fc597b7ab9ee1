//! The records of a collection: workflows, their runs, the timing of each
//! run, and the rows of a report.

use crate::dates::{parse_rfc3339, rfc3339_seconds};
use vstd::prelude::*;

verus! {

/// What each of the records is, in order.
pub open spec fn views_of<T: View>(records: Seq<T>) -> Seq<T::V> {
    records.map_values(|record: T| record@)
}

/// Appending a record appends what it is.
pub proof fn lemma_views_of_push<T: View>(records: Seq<T>, record: T)
    ensures
        views_of(records.push(record)) == views_of(records).push(record@),
{
    assert(views_of(records.push(record)) =~= views_of(records).push(record@));
}

/// What a workflow is: its number and its name.
pub struct WorkflowView {
    pub id: int,
    pub name: Seq<char>,
}

/// A workflow of the repository.
#[derive(Debug)]
pub struct Workflow {
    id: i64,
    name: String,
}

impl View for Workflow {
    type V = WorkflowView;

    closed spec fn view(&self) -> WorkflowView {
        WorkflowView { id: self.id as int, name: self.name@ }
    }
}

impl Clone for Workflow {
    fn clone(&self) -> (copy: Self)
        ensures
            copy@ == self@,
    {
        Workflow { id: self.id, name: self.name.clone() }
    }
}

impl Default for Workflow {
    /// The workflow with the number 0 and no name.
    fn default() -> (w: Self)
        ensures
            w@ == (WorkflowView { id: 0, name: Seq::empty() }),
    {
        Workflow { id: 0, name: String::new() }
    }
}

impl Workflow {
    /// The workflow with the given number and name.
    pub fn new(id: i64, name: String) -> (w: Workflow)
        ensures
            w@ == (WorkflowView { id: id as int, name: name@ }),
    {
        Workflow { id, name }
    }

    /// The number of the workflow.
    pub fn get_id(&self) -> (id: i64)
        ensures
            id == self@.id,
    {
        self.id
    }

    /// The name of the workflow.
    pub fn get_name(&self) -> (name: String)
        ensures
            name@ == self@.name,
    {
        self.name.clone()
    }
}

/// The workflows of a repository, in the order in which they were listed.
#[derive(Debug)]
pub struct Workflows {
    values: Vec<Workflow>,
}

impl View for Workflows {
    type V = Seq<WorkflowView>;

    closed spec fn view(&self) -> Seq<WorkflowView> {
        views_of(self.values@)
    }
}

impl Default for Workflows {
    /// The list without workflows.
    fn default() -> (w: Self)
        ensures
            w@ == Seq::<WorkflowView>::empty(),
    {
        let w = Workflows { values: Vec::new() };
        proof {
            assert(w@ =~= Seq::<WorkflowView>::empty());
        }
        w
    }
}

impl Workflows {
    /// The list of the given workflows.
    pub fn new(values: Vec<Workflow>) -> (w: Workflows)
        ensures
            w@ == views_of(values@),
    {
        Workflows { values }
    }

    /// A copy of the workflows, in order.
    pub fn get_workflows(&self) -> (copy: Vec<Workflow>)
        ensures
            views_of(copy@) == self@,
    {
        let copy = self.values.clone();
        proof {
            assert(views_of(copy@) =~= views_of(self.values@));
        }
        copy
    }
}

/// What a run is: its number, the text of its creation time as the
/// provider gave it, its status, and the instant of its creation in seconds
/// since the start of 1970 in UTC.
pub struct RunView {
    pub id: int,
    pub created_at: Seq<char>,
    pub status: Seq<char>,
    pub seconds: int,
}

/// One run of a workflow.
#[derive(Debug)]
pub struct WorkflowRun {
    id: i64,
    created_at: String,
    status: String,
    seconds: i64,
}

impl View for WorkflowRun {
    type V = RunView;

    closed spec fn view(&self) -> RunView {
        RunView {
            id: self.id as int,
            created_at: self.created_at@,
            status: self.status@,
            seconds: self.seconds as int,
        }
    }
}

impl Clone for WorkflowRun {
    fn clone(&self) -> (copy: Self)
        ensures
            copy@ == self@,
    {
        WorkflowRun {
            id: self.id,
            created_at: self.created_at.clone(),
            status: self.status.clone(),
            seconds: self.seconds,
        }
    }
}

impl WorkflowRun {
    /// The run with the given number and status that was created at the
    /// RFC 3339 date and time `created_at`; nothing where `created_at` is no
    /// such date.
    pub fn new(id: i64, created_at: String, status: String) -> (run: Option<WorkflowRun>)
        ensures
            match run {
                Some(run) => {
                    &&& rfc3339_seconds(created_at@) == Some(run@.seconds)
                    &&& run@.id == id
                    &&& run@.created_at == created_at@
                    &&& run@.status == status@
                },
                None => rfc3339_seconds(created_at@) is None,
            },
    {
        match parse_rfc3339(created_at.as_str()) {
            Some(seconds) => Some(WorkflowRun::created(id, created_at, status, seconds)),
            None => None,
        }
    }

    /// The run with the given number, creation text and status, for a
    /// caller that knows the instant of creation already.
    pub fn created(id: i64, created_at: String, status: String, seconds: i64) -> (run: WorkflowRun)
        ensures
            run@ == (RunView {
                id: id as int,
                created_at: created_at@,
                status: status@,
                seconds: seconds as int,
            }),
    {
        WorkflowRun { id, created_at, status, seconds }
    }

    /// The number of the run.
    pub fn get_id(&self) -> (id: i64)
        ensures
            id == self@.id,
    {
        self.id
    }

    /// The creation time of the run, as the provider wrote it.
    pub fn get_created_at(&self) -> (created_at: String)
        ensures
            created_at@ == self@.created_at,
    {
        self.created_at.clone()
    }

    /// The status of the run.
    pub fn get_status(&self) -> (status: String)
        ensures
            status@ == self@.status,
    {
        self.status.clone()
    }

    /// The instant at which the run was created.
    pub fn get_seconds(&self) -> (seconds: i64)
        ensures
            seconds == self@.seconds,
    {
        self.seconds
    }

    /// Tells whether the run was created before the instant `date`.
    pub fn is_execution_date_smaller_than(&self, date: i64) -> (r: bool)
        ensures
            r == (self@.seconds < date),
    {
        self.seconds < date
    }

    /// Tells whether the run was created at the instant `date` or before.
    pub fn is_execution_date_equally_smaller_than(&self, date: i64) -> (r: bool)
        ensures
            r == (self@.seconds <= date),
    {
        self.seconds <= date
    }

    /// Tells whether the run was created at the instant `date` or after.
    pub fn is_execution_date_equally_greater_than(&self, date: i64) -> (r: bool)
        ensures
            r == (self@.seconds >= date),
    {
        self.seconds >= date
    }
}

/// The test that a run was created between `from` and `to`, both included.
pub open spec fn created_within(from: int, to: int) -> spec_fn(RunView) -> bool {
    |run: RunView| from <= run.seconds <= to
}

/// Those of `runs` that were created between `from` and `to`, both
/// included, in the same order.
pub open spec fn runs_within(runs: Seq<RunView>, from: int, to: int) -> Seq<RunView> {
    runs.filter(created_within(from, to))
}

/// One of `runs` was created before `from`.
pub open spec fn any_before(runs: Seq<RunView>, from: int) -> bool {
    exists|i: int| 0 <= i < runs.len() && (#[trigger] runs[i]).seconds < from
}

/// One of `runs` has the number `id`.
pub open spec fn has_id(runs: Seq<RunView>, id: int) -> bool {
    exists|i: int| 0 <= i < runs.len() && (#[trigger] runs[i]).id == id
}

/// No two of `runs` have the same number.
pub open spec fn distinct_ids(runs: Seq<RunView>) -> bool {
    forall|i: int, j: int|
        0 <= i < j < runs.len() ==> (#[trigger] runs[i]).id != (#[trigger] runs[j]).id
}

/// `known` followed by those of `more` whose number has not come before,
/// neither in `known` nor earlier in `more`.
pub open spec fn with_unseen(known: Seq<RunView>, more: Seq<RunView>) -> Seq<RunView>
    decreases more.len(),
{
    if more.len() == 0 {
        known
    } else {
        let front = with_unseen(known, more.drop_last());
        if has_id(front, more.last().id) {
            front
        } else {
            front.push(more.last())
        }
    }
}

/// A list of runs, in the order in which the provider returned them.
#[derive(Debug)]
pub struct WorkflowRuns {
    workflow_runs: Vec<WorkflowRun>,
}

impl View for WorkflowRuns {
    type V = Seq<RunView>;

    closed spec fn view(&self) -> Seq<RunView> {
        views_of(self.workflow_runs@)
    }
}

impl Clone for WorkflowRuns {
    fn clone(&self) -> (copy: Self)
        ensures
            copy@ == self@,
    {
        WorkflowRuns { workflow_runs: self.get_workflow_runs() }
    }
}

impl Default for WorkflowRuns {
    /// The list without runs.
    fn default() -> (runs: Self)
        ensures
            runs@ == Seq::<RunView>::empty(),
    {
        WorkflowRuns::empty()
    }
}

impl WorkflowRuns {
    /// The list without runs.
    pub fn empty() -> (runs: WorkflowRuns)
        ensures
            runs@ == Seq::<RunView>::empty(),
    {
        let runs = WorkflowRuns { workflow_runs: Vec::new() };
        proof {
            assert(runs@ =~= Seq::<RunView>::empty());
        }
        runs
    }

    /// The list of the given runs.
    pub fn new(workflow_runs: Vec<WorkflowRun>) -> (runs: WorkflowRuns)
        ensures
            runs@ == views_of(workflow_runs@),
    {
        WorkflowRuns { workflow_runs }
    }

    /// A copy of the runs, in order.
    pub fn get_workflow_runs(&self) -> (copy: Vec<WorkflowRun>)
        ensures
            views_of(copy@) == self@,
    {
        let copy = self.workflow_runs.clone();
        proof {
            assert(views_of(copy@) =~= views_of(self.workflow_runs@));
        }
        copy
    }

    /// The number of runs.
    pub fn get_length(&self) -> (n: usize)
        ensures
            n == self@.len(),
    {
        self.workflow_runs.len()
    }

    /// The runs that were created between `from_date` and `to_date`, both
    /// instants included, in the same order. The list itself stays as it
    /// is.
    pub fn exclude_runs_exceeding_date_limit(&mut self, from_date: i64, to_date: i64) -> (kept:
        Self)
        ensures
            final(self)@ == old(self)@,
            kept@ == runs_within(old(self)@, from_date as int, to_date as int),
    {
        let ghost test = created_within(from_date as int, to_date as int);
        let mut kept: Vec<WorkflowRun> = Vec::new();
        let mut i: usize = 0;
        proof {
            assert(self@.take(0) =~= Seq::<RunView>::empty());
            self@.take(0).lemma_filter_len(test);
        }
        while i < self.workflow_runs.len()
            invariant
                i <= self.workflow_runs@.len(),
                *self == *old(self),
                test == created_within(from_date as int, to_date as int),
                views_of(kept@) == self@.take(i as int).filter(test),
            decreases self.workflow_runs.len() - i,
        {
            let run = &self.workflow_runs[i];
            proof {
                assert(self@.take(i + 1) == self@.take(i as int).push(run@));
                self@.take(i as int).lemma_filter_push(run@, test);
            }
            if run.is_execution_date_equally_greater_than(from_date)
                && run.is_execution_date_equally_smaller_than(to_date) {
                let ghost before = kept@;
                let copy = run.clone();
                proof {
                    lemma_views_of_push(before, copy);
                }
                kept.push(copy);
            }
            i += 1;
        }
        proof {
            assert(self@.take(i as int) == self@);
        }
        WorkflowRuns { workflow_runs: kept }
    }

    /// Appends the runs of `workflow_runs`, in order.
    pub fn add_workflow_runs(&mut self, workflow_runs: WorkflowRuns)
        ensures
            final(self)@ == old(self)@ + workflow_runs@,
    {
        let mut source = workflow_runs.workflow_runs;
        let ghost added = source@;
        let ghost before = self.workflow_runs@;
        self.workflow_runs.append(&mut source);
        proof {
            assert(views_of(before + added) =~= views_of(before) + views_of(added));
        }
    }

    /// Tells whether one of the runs was created before the instant
    /// `from_date`.
    pub fn is_reached_at_from_date(&self, from_date: i64) -> (reached: bool)
        ensures
            reached == any_before(self@, from_date as int),
    {
        let mut i: usize = 0;
        while i < self.workflow_runs.len()
            invariant
                i <= self.workflow_runs@.len(),
                forall|j: int| 0 <= j < i ==> !((#[trigger] self@[j]).seconds < from_date),
            decreases self.workflow_runs.len() - i,
        {
            if self.workflow_runs[i].is_execution_date_smaller_than(from_date) {
                proof {
                    assert(self@[i as int] == self.workflow_runs@[i as int]@);
                }
                return true;
            }
            proof {
                assert(self@[i as int] == self.workflow_runs@[i as int]@);
            }
            i += 1;
        }
        false
    }

    /// Tells whether one of the runs has the number `id`.
    pub fn contains_id(&self, id: i64) -> (found: bool)
        ensures
            found == has_id(self@, id as int),
    {
        let mut i: usize = 0;
        while i < self.workflow_runs.len()
            invariant
                i <= self.workflow_runs@.len(),
                forall|j: int| 0 <= j < i ==> (#[trigger] self@[j]).id != id,
            decreases self.workflow_runs.len() - i,
        {
            proof {
                assert(self@[i as int] == self.workflow_runs@[i as int]@);
            }
            if self.workflow_runs[i].get_id() == id {
                return true;
            }
            i += 1;
        }
        false
    }

    /// Appends those runs of `workflow_runs` whose number has not come
    /// before, in order.
    pub fn add_unseen_workflow_runs(&mut self, workflow_runs: WorkflowRuns)
        ensures
            final(self)@ == with_unseen(old(self)@, workflow_runs@),
    {
        let source = workflow_runs.workflow_runs;
        let mut i: usize = 0;
        proof {
            assert(views_of(source@).take(0) =~= Seq::<RunView>::empty());
        }
        while i < source.len()
            invariant
                i <= source@.len(),
                self@ == with_unseen(old(self)@, views_of(source@).take(i as int)),
            decreases source.len() - i,
        {
            proof {
                let longer = views_of(source@).take(i + 1);
                assert(longer.drop_last() == views_of(source@).take(i as int));
                assert(longer.last() == source@[i as int]@);
            }
            if !self.contains_id(source[i].get_id()) {
                let ghost before = self.workflow_runs@;
                let copy = source[i].clone();
                proof {
                    lemma_views_of_push(before, copy);
                }
                self.workflow_runs.push(copy);
            }
            i += 1;
        }
        proof {
            assert(views_of(source@).take(i as int) == views_of(source@));
        }
    }
}

/// A run is kept exactly if it is in the list and was created between
/// `from` and `to`; a run created at `from` or at `to` is kept.
pub proof fn lemma_kept_exactly_within(runs: Seq<RunView>, from: int, to: int, run: RunView)
    ensures
        runs_within(runs, from, to).contains(run) <==> runs.contains(run) && from <= run.seconds
            <= to,
{
    let test = created_within(from, to);
    if runs_within(runs, from, to).contains(run) {
        let i = choose|i: int| 0 <= i < runs.filter(test).len() && runs.filter(test)[i] == run;
        runs.lemma_filter_pred(test, i);
        runs.lemma_filter_contains_rev(test, run);
    }
    if runs.contains(run) && from <= run.seconds <= to {
        let i = choose|i: int| 0 <= i < runs.len() && runs[i] == run;
        runs.lemma_filter_contains(test, i);
    }
}

/// Where `from` lies after `to`, no run is kept.
pub proof fn lemma_nothing_within_inverted(runs: Seq<RunView>, from: int, to: int)
    requires
        from > to,
    ensures
        runs_within(runs, from, to).len() == 0,
{
    let kept = runs_within(runs, from, to);
    if kept.len() > 0 {
        runs.lemma_filter_pred(created_within(from, to), 0);
    }
}

/// Appending the unseen runs keeps what was known in front, takes runs from
/// `known` and `more` only, leaves no number of `more` out, and gives no
/// number twice if `known` gave none twice.
pub proof fn lemma_with_unseen(known: Seq<RunView>, more: Seq<RunView>)
    ensures
        known.len() <= with_unseen(known, more).len(),
        with_unseen(known, more).take(known.len() as int) == known,
        forall|i: int|
            known.len() <= i < with_unseen(known, more).len() ==> more.contains(
                #[trigger] with_unseen(known, more)[i],
            ),
        forall|j: int|
            0 <= j < more.len() ==> has_id(with_unseen(known, more), (#[trigger] more[j]).id),
        distinct_ids(known) ==> distinct_ids(with_unseen(known, more)),
    decreases more.len(),
{
    let all = with_unseen(known, more);
    if more.len() == 0 {
        assert(all.take(known.len() as int) == known);
    } else {
        let front = with_unseen(known, more.drop_last());
        let last = more.last();
        lemma_with_unseen(known, more.drop_last());
        assert(all.take(known.len() as int) == front.take(known.len() as int));
        assert forall|i: int| known.len() <= i < all.len() implies more.contains(
            #[trigger] all[i],
        ) by {
            if i < front.len() {
                let rest = more.drop_last();
                let k = choose|k: int| 0 <= k < rest.len() && rest[k] == front[i];
                assert(more[k] == all[i]);
            } else {
                assert(more[more.len() - 1] == all[i]);
            }
        }
        assert forall|j: int| 0 <= j < more.len() implies has_id(all, (#[trigger] more[j]).id) by {
            if j < more.len() - 1 {
                assert(more.drop_last()[j] == more[j]);
                let k = choose|k: int|
                    0 <= k < front.len() && (#[trigger] front[k]).id == more[j].id;
                assert(all[k].id == more[j].id);
            } else if has_id(front, last.id) {
            } else {
                assert(all[all.len() - 1].id == last.id);
            }
        }
    }
}

/// What a timing record is: the number of the run that it belongs to, and
/// the two counts of milliseconds, each of which the provider may leave
/// out.
pub struct TimingView {
    pub run_id: int,
    pub billable_total_ms: Option<int>,
    pub run_duration_ms: Option<int>,
}

/// The timing of one run.
#[derive(Debug, Clone, Copy)]
pub struct Timing {
    run_id: i64,
    billable_total_ms: Option<i64>,
    run_duration_ms: Option<i64>,
}

/// A count that may be missing, as a number or nothing.
pub open spec fn count_view(count: Option<i64>) -> Option<int> {
    match count {
        Some(ms) => Some(ms as int),
        None => None,
    }
}

impl View for Timing {
    type V = TimingView;

    closed spec fn view(&self) -> TimingView {
        TimingView {
            run_id: self.run_id as int,
            billable_total_ms: count_view(self.billable_total_ms),
            run_duration_ms: count_view(self.run_duration_ms),
        }
    }
}

impl Default for Timing {
    /// The timing of the run with the number 0, without any count.
    fn default() -> (t: Self)
        ensures
            t@ == (TimingView { run_id: 0, billable_total_ms: None, run_duration_ms: None }),
    {
        Timing { run_id: 0, billable_total_ms: None, run_duration_ms: None }
    }
}

impl Timing {
    /// The timing of the run with the number `run_id`.
    pub fn new(run_id: i64, billable_total_ms: Option<i64>, run_duration_ms: Option<i64>) -> (t:
        Timing)
        ensures
            t@ == (TimingView {
                run_id: run_id as int,
                billable_total_ms: count_view(billable_total_ms),
                run_duration_ms: count_view(run_duration_ms),
            }),
    {
        Timing { run_id, billable_total_ms, run_duration_ms }
    }

    /// The number of the run that the timing belongs to.
    pub fn get_run_id(&self) -> (run_id: i64)
        ensures
            run_id == self@.run_id,
    {
        self.run_id
    }

    /// The billable milliseconds, if the provider gave them.
    pub fn get_billable_total_ms(&self) -> (ms: Option<i64>)
        ensures
            count_view(ms) == self@.billable_total_ms,
    {
        self.billable_total_ms
    }

    /// The duration of the run in milliseconds, if the provider gave it.
    pub fn get_run_duration_ms(&self) -> (ms: Option<i64>)
        ensures
            count_view(ms) == self@.run_duration_ms,
    {
        self.run_duration_ms
    }
}

/// The first of `timings` that belongs to the run with the number
/// `run_id`.
pub open spec fn timing_of(timings: Seq<TimingView>, run_id: int) -> Option<TimingView>
    decreases timings.len(),
{
    if timings.len() == 0 {
        None
    } else if timings[0].run_id == run_id {
        Some(timings[0])
    } else {
        timing_of(timings.drop_first(), run_id)
    }
}

/// Timing records, in the order in which they arrived.
#[derive(Debug)]
pub struct Timings {
    values: Vec<Timing>,
}

impl View for Timings {
    type V = Seq<TimingView>;

    closed spec fn view(&self) -> Seq<TimingView> {
        views_of(self.values@)
    }
}

impl Default for Timings {
    /// The list without timing records.
    fn default() -> (timings: Self)
        ensures
            timings@ == Seq::<TimingView>::empty(),
    {
        let timings = Timings { values: Vec::new() };
        proof {
            assert(timings@ =~= Seq::<TimingView>::empty());
        }
        timings
    }
}

impl Timings {
    /// The list of the given timing records.
    pub fn new(values: Vec<Timing>) -> (timings: Timings)
        ensures
            timings@ == views_of(values@),
    {
        Timings { values }
    }

    /// The number of timing records.
    pub fn get_length(&self) -> (n: usize)
        ensures
            n == self@.len(),
    {
        self.values.len()
    }

    /// The first timing record of the run with the number `run_id`.
    pub fn find(&self, run_id: i64) -> (found: Option<Timing>)
        ensures
            match found {
                Some(timing) => timing_of(self@, run_id as int) == Some(timing@),
                None => timing_of(self@, run_id as int) is None,
            },
    {
        let mut i: usize = 0;
        proof {
            assert(self@.skip(0) == self@);
        }
        while i < self.values.len()
            invariant
                i <= self.values@.len(),
                timing_of(self@, run_id as int) == timing_of(self@.skip(i as int), run_id as int),
            decreases self.values.len() - i,
        {
            proof {
                assert(self@.skip(i as int)[0] == self.values@[i as int]@);
                assert(self@.skip(i as int).drop_first() == self@.skip(i + 1));
            }
            if self.values[i].get_run_id() == run_id {
                return Some(self.values[i]);
            }
            i += 1;
        }
        None
    }
}

/// Where every run was created between `from` and `to`, all are kept.
pub proof fn lemma_all_within(runs: Seq<RunView>, from: int, to: int)
    requires
        forall|i: int| 0 <= i < runs.len() ==> from <= (#[trigger] runs[i]).seconds <= to,
    ensures
        runs_within(runs, from, to) == runs,
    decreases runs.len(),
{
    reveal(Seq::filter);
    if runs.len() > 0 {
        let front = runs.drop_last();
        assert forall|i: int| 0 <= i < front.len() implies from <= (#[trigger] front[i]).seconds
            <= to by {
            assert(front[i] == runs[i]);
        }
        lemma_all_within(front, from, to);
        assert(runs[runs.len() - 1] == runs.last());
        assert(front.push(runs.last()) == runs);
    }
}

/// Where no number occurs twice among `known` and `more` together,
/// appending the unseen runs appends all of `more`.
pub proof fn lemma_with_unseen_of_distinct(known: Seq<RunView>, more: Seq<RunView>)
    requires
        distinct_ids(known + more),
    ensures
        with_unseen(known, more) == known + more,
    decreases more.len(),
{
    let all = known + more;
    if more.len() == 0 {
        assert(all == known);
    } else {
        let rest = more.drop_last();
        let shorter = known + rest;
        assert forall|i: int, j: int| 0 <= i < j < shorter.len() implies (#[trigger] shorter[i]).id
            != (#[trigger] shorter[j]).id by {
            assert(shorter[i] == all[i]);
            assert(shorter[j] == all[j]);
        }
        lemma_with_unseen_of_distinct(known, rest);
        let last = more.last();
        assert(all[all.len() - 1] == last);
        if has_id(shorter, last.id) {
            let k = choose|k: int| 0 <= k < shorter.len() && (#[trigger] shorter[k]).id == last.id;
            assert(shorter[k] == all[k]);
            assert(all[k].id != all[all.len() - 1].id);
        }
        assert(shorter.push(last) == all);
    }
}

} // verus!
