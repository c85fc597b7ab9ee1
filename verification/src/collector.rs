//! Gathering what concurrent fetches bring back.
//!
//! The run lists of all workflows are needed whole: one failure fails the
//! collection. The timing records of the runs of one workflow arrive one by
//! one and in any order, each fetch ending once, with a record or without;
//! a fetch that fails only leaves its run out.

use crate::model::{
    lemma_views_of_push, views_of, Timing, TimingView, Timings, WorkflowRuns,
};
use vstd::prelude::*;

verus! {

/// All the values if every outcome is a success; otherwise the first
/// error, in the order of `outcomes`.
pub fn all_or_first_error<T, E>(outcomes: Vec<Result<T, E>>) -> (r: Result<Vec<T>, E>)
    ensures
        match r {
            Ok(values) => values@.len() == outcomes@.len() && forall|i: int|
                0 <= i < outcomes@.len() ==> outcomes@[i] == Ok::<T, E>(values@[i]),
            Err(e) => exists|k: int|
                0 <= k < outcomes@.len() && outcomes@[k] == Err::<T, E>(e) && forall|j: int|
                    0 <= j < k ==> (#[trigger] outcomes@[j]) is Ok,
        },
{
    let mut values: Vec<T> = Vec::new();
    for outcome in it: outcomes
        invariant
            it.seq() == outcomes@,
            values@.len() == it.index(),
            forall|i: int| 0 <= i < it.index() ==> outcomes@[i] == Ok::<T, E>(values@[i]),
    {
        match outcome {
            Ok(value) => {
                values.push(value);
            },
            Err(e) => {
                return Err(e);
            },
        }
    }
    Ok(values)
}

/// How the fetch of one timing record ended.
#[derive(Debug, Clone, Copy)]
pub enum FetchOutcome {
    /// The record arrived.
    Delivered(Timing),
    /// The fetch failed; its run gets no row.
    Failed,
}

/// What an outcome is: the record that arrived, if one did.
pub open spec fn outcome_view(outcome: FetchOutcome) -> Option<TimingView> {
    match outcome {
        FetchOutcome::Delivered(timing) => Some(timing@),
        FetchOutcome::Failed => None,
    }
}

/// The records that arrived, in the order of their arrival.
pub open spec fn delivered(outcomes: Seq<Option<TimingView>>) -> Seq<TimingView>
    decreases outcomes.len(),
{
    if outcomes.len() == 0 {
        Seq::empty()
    } else {
        match outcomes.last() {
            Some(timing) => delivered(outcomes.drop_last()).push(timing),
            None => delivered(outcomes.drop_last()),
        }
    }
}

/// The numbers of the runs, in order: the fetches to start, one per run.
pub fn run_ids(workflow_runs: &WorkflowRuns) -> (ids: Vec<i64>)
    ensures
        ids@.len() == workflow_runs@.len(),
        forall|i: int| 0 <= i < ids@.len() ==> ids@[i] == workflow_runs@[i].id,
{
    let runs = workflow_runs.get_workflow_runs();
    let mut ids: Vec<i64> = Vec::new();
    let mut i: usize = 0;
    while i < runs.len()
        invariant
            i <= runs@.len(),
            views_of(runs@) == workflow_runs@,
            ids@.len() == i,
            forall|j: int| 0 <= j < i ==> ids@[j] == workflow_runs@[j].id,
        decreases runs.len() - i,
    {
        proof {
            assert(views_of(runs@)[i as int] == runs@[i as int]@);
        }
        ids.push(runs[i].get_id());
        i += 1;
    }
    ids
}

/// The receiving end of the fetches of one workflow. It counts the fetches
/// that have not ended yet and keeps the records that arrived.
pub struct TimingCollector {
    outstanding: usize,
    timings: Vec<Timing>,
    outcomes: Ghost<Seq<Option<TimingView>>>,
    fetches: Ghost<nat>,
}

impl TimingCollector {
    /// The number of fetches that have not ended yet.
    pub closed spec fn outstanding(&self) -> nat {
        self.outstanding as nat
    }

    /// The outcomes taken so far, in the order of their arrival.
    pub closed spec fn outcomes(&self) -> Seq<Option<TimingView>> {
        self.outcomes@
    }

    /// The records kept so far.
    pub closed spec fn received(&self) -> Seq<TimingView> {
        views_of(self.timings@)
    }

    /// Every fetch has either ended or is outstanding, and the records
    /// kept are those that arrived, in the order of arrival.
    pub closed spec fn wf(&self) -> bool {
        &&& self.outstanding + self.outcomes@.len() == self.fetches@
        &&& views_of(self.timings@) == delivered(self.outcomes@)
    }

    /// The number of fetches that were started.
    pub closed spec fn fetches(&self) -> nat {
        self.fetches@
    }

    /// The receiving end of `fetches` fetches, before any has ended.
    pub fn new(fetches: usize) -> (collector: TimingCollector)
        ensures
            collector.wf(),
            collector.fetches() == fetches,
            collector.outstanding() == fetches,
            collector.outcomes() == Seq::<Option<TimingView>>::empty(),
            collector.received() == Seq::<TimingView>::empty(),
    {
        let collector = TimingCollector {
            outstanding: fetches,
            timings: Vec::new(),
            outcomes: Ghost(Seq::empty()),
            fetches: Ghost(fetches as nat),
        };
        proof {
            assert(collector.received() =~= Seq::<TimingView>::empty());
        }
        collector
    }

    /// Tells whether every fetch has ended.
    pub fn is_complete(&self) -> (complete: bool)
        ensures
            complete == (self.outstanding() == 0),
    {
        self.outstanding == 0
    }

    /// Takes the outcome of one fetch: one fetch fewer is outstanding, and
    /// a record that arrived is kept behind those kept before. Once every
    /// fetch has ended, a further outcome is ignored.
    pub fn record(&mut self, outcome: FetchOutcome)
        requires
            old(self).wf(),
        ensures
            final(self).wf(),
            final(self).fetches() == old(self).fetches(),
            old(self).outstanding() == 0 ==> {
                &&& final(self).outstanding() == 0
                &&& final(self).outcomes() == old(self).outcomes()
                &&& final(self).received() == old(self).received()
            },
            old(self).outstanding() > 0 ==> {
                &&& final(self).outstanding() == old(self).outstanding() - 1
                &&& final(self).outcomes() == old(self).outcomes().push(outcome_view(outcome))
                &&& final(self).received() == match outcome_view(outcome) {
                    Some(timing) => old(self).received().push(timing),
                    None => old(self).received(),
                }
            },
    {
        if self.outstanding == 0 {
            return;
        }
        proof {
            let grown = self.outcomes@.push(outcome_view(outcome));
            assert(grown.drop_last() =~= self.outcomes@);
            assert(grown.last() == outcome_view(outcome));
        }
        match outcome {
            FetchOutcome::Delivered(timing) => {
                proof {
                    lemma_views_of_push(self.timings@, timing);
                }
                self.timings.push(timing);
            },
            FetchOutcome::Failed => {},
        }
        self.outcomes = Ghost(self.outcomes@.push(outcome_view(outcome)));
        self.outstanding = self.outstanding - 1;
    }

    /// The records that arrived, in the order of their arrival.
    pub fn into_timings(self) -> (timings: Timings)
        requires
            self.wf(),
        ensures
            timings@ == self.received(),
            timings@ == delivered(self.outcomes()),
    {
        Timings::new(self.timings)
    }
}

/// The receiving end is complete exactly when as many outcomes have been
/// taken as fetches were started: not before, and whatever the order and
/// the outcomes were. At most one record is kept per outcome.
pub proof fn lemma_complete_when_all_ended(collector: TimingCollector)
    requires
        collector.wf(),
    ensures
        collector.outstanding() + collector.outcomes().len() == collector.fetches(),
        collector.outstanding() == 0 <==> collector.outcomes().len() == collector.fetches(),
        collector.received() == delivered(collector.outcomes()),
        collector.received().len() <= collector.outcomes().len(),
{
    lemma_delivered_len(collector.outcomes());
}

/// No more records arrive than fetches end.
pub proof fn lemma_delivered_len(outcomes: Seq<Option<TimingView>>)
    ensures
        delivered(outcomes).len() <= outcomes.len(),
    decreases outcomes.len(),
{
    if outcomes.len() > 0 {
        lemma_delivered_len(outcomes.drop_last());
    }
}

} // verus!
