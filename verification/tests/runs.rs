use github_actions_execution_time_collector::model::{
    Timing, Timings, Workflow, WorkflowRun, WorkflowRuns, Workflows,
};

fn run(id: i64, created_at: &str) -> WorkflowRun {
    WorkflowRun::new(id, created_at.to_string(), "completed".to_string()).unwrap()
}

fn ids(runs: &WorkflowRuns) -> Vec<i64> {
    runs.get_workflow_runs().iter().map(|r| r.get_id()).collect()
}

#[test]
fn run_knows_the_instant_of_its_creation() {
    let r = run(7, "2024-01-03T00:00:00Z");
    assert_eq!(r.get_id(), 7);
    assert_eq!(r.get_created_at(), "2024-01-03T00:00:00Z");
    assert_eq!(r.get_status(), "completed");
    assert_eq!(r.get_seconds(), 1704240000);
}

#[test]
fn creation_time_is_read_with_its_offset() {
    assert_eq!(run(1, "2024-01-03T02:00:00+02:00").get_seconds(), 1704240000);
    assert_eq!(run(1, "2024-01-02T19:00:00-05:00").get_seconds(), 1704240000);
    assert_eq!(run(1, "2024-01-03T00:00:01Z").get_seconds(), 1704240001);
    assert_eq!(run(1, "2024-01-03T00:00:00.999Z").get_seconds(), 1704240000);
    assert_eq!(run(1, "1970-01-01T00:00:00Z").get_seconds(), 0);
    assert_eq!(run(1, "1969-12-31T23:59:59Z").get_seconds(), -1);
}

#[test]
fn creation_time_that_is_no_date_gives_no_run() {
    assert!(WorkflowRun::new(1, "yesterday".to_string(), "completed".to_string()).is_none());
    assert!(WorkflowRun::new(1, "".to_string(), "completed".to_string()).is_none());
    assert!(WorkflowRun::new(1, "2024-01-03".to_string(), "completed".to_string()).is_none());
    assert!(WorkflowRun::new(1, "2024-02-30T00:00:00Z".to_string(), "x".to_string()).is_none());
}

#[test]
fn run_with_a_known_instant() {
    let r = WorkflowRun::created(3, "whenever".to_string(), "queued".to_string(), 110);
    assert_eq!(r.get_id(), 3);
    assert_eq!(r.get_created_at(), "whenever");
    assert_eq!(r.get_status(), "queued");
    assert_eq!(r.get_seconds(), 110);
    let copy = r.clone();
    assert_eq!(copy.get_id(), 3);
    assert_eq!(copy.get_created_at(), "whenever");
    assert_eq!(copy.get_status(), "queued");
    assert_eq!(copy.get_seconds(), 110);
}

#[test]
fn execution_date_smaller_than() {
    let limit = 110;
    let at = |seconds: i64| WorkflowRun::created(1, String::new(), String::new(), seconds);
    assert!(!at(120).is_execution_date_smaller_than(limit));
    assert!(!at(110).is_execution_date_smaller_than(limit));
    assert!(at(100).is_execution_date_smaller_than(limit));
}

#[test]
fn execution_date_equally_smaller_than() {
    let limit = 110;
    let at = |seconds: i64| WorkflowRun::created(1, String::new(), String::new(), seconds);
    assert!(!at(120).is_execution_date_equally_smaller_than(limit));
    assert!(at(110).is_execution_date_equally_smaller_than(limit));
    assert!(at(100).is_execution_date_equally_smaller_than(limit));
}

#[test]
fn execution_date_equally_greater_than() {
    let limit = 110;
    let at = |seconds: i64| WorkflowRun::created(1, String::new(), String::new(), seconds);
    assert!(at(120).is_execution_date_equally_greater_than(limit));
    assert!(at(110).is_execution_date_equally_greater_than(limit));
    assert!(!at(100).is_execution_date_equally_greater_than(limit));
}

#[test]
fn empty_list_of_runs() {
    let runs = WorkflowRuns::empty();
    assert_eq!(runs.get_length(), 0);
    assert!(runs.get_workflow_runs().is_empty());
    assert!(!runs.is_reached_at_from_date(i64::MAX));
    assert!(!runs.contains_id(0));
}

#[test]
fn runs_at_the_ends_of_the_window_are_kept() {
    let mut runs = WorkflowRuns::new(vec![
        run(1, "2024-01-04T00:00:01Z"),
        run(2, "2024-01-04T00:00:00Z"),
        run(3, "2024-01-03T12:00:00Z"),
        run(4, "2024-01-02T00:00:00Z"),
        run(5, "2024-01-01T23:59:59Z"),
    ]);
    let kept = runs.exclude_runs_exceeding_date_limit(1704153600, 1704326400);
    assert_eq!(ids(&kept), vec![2, 3, 4]);
    assert_eq!(ids(&runs), vec![1, 2, 3, 4, 5]);
}

#[test]
fn filter_keeps_the_order_and_the_fields() {
    let mut runs = WorkflowRuns::new(vec![
        WorkflowRun::created(9, "a".to_string(), "failure".to_string(), 15),
        WorkflowRun::created(8, "b".to_string(), "success".to_string(), 30),
        WorkflowRun::created(7, "c".to_string(), "queued".to_string(), 10),
        WorkflowRun::created(6, "d".to_string(), "success".to_string(), 20),
    ]);
    let kept = runs.exclude_runs_exceeding_date_limit(10, 20).get_workflow_runs();
    assert_eq!(kept.len(), 3);
    assert_eq!(kept[0].get_id(), 9);
    assert_eq!(kept[0].get_created_at(), "a");
    assert_eq!(kept[0].get_status(), "failure");
    assert_eq!(kept[0].get_seconds(), 15);
    assert_eq!(kept[1].get_id(), 7);
    assert_eq!(kept[1].get_status(), "queued");
    assert_eq!(kept[2].get_id(), 6);
    assert_eq!(kept[2].get_seconds(), 20);
}

#[test]
fn filter_with_an_inverted_window_keeps_nothing() {
    let mut runs = WorkflowRuns::new(vec![
        WorkflowRun::created(1, String::new(), String::new(), 10),
        WorkflowRun::created(2, String::new(), String::new(), 15),
        WorkflowRun::created(3, String::new(), String::new(), 20),
    ]);
    assert_eq!(runs.exclude_runs_exceeding_date_limit(20, 10).get_length(), 0);
    assert_eq!(runs.exclude_runs_exceeding_date_limit(15, 15).get_length(), 1);
}

#[test]
fn boundary_is_reached_by_a_run_before_the_start_only() {
    let runs = WorkflowRuns::new(vec![
        WorkflowRun::created(1, String::new(), String::new(), 120),
        WorkflowRun::created(2, String::new(), String::new(), 110),
    ]);
    assert!(!runs.is_reached_at_from_date(110));
    assert!(!runs.is_reached_at_from_date(100));
    assert!(runs.is_reached_at_from_date(111));
    assert!(runs.is_reached_at_from_date(121));
}

#[test]
fn added_runs_come_behind_in_order() {
    let mut runs = WorkflowRuns::new(vec![
        WorkflowRun::created(1, String::new(), String::new(), 30),
    ]);
    runs.add_workflow_runs(WorkflowRuns::new(vec![
        WorkflowRun::created(2, String::new(), String::new(), 20),
        WorkflowRun::created(1, String::new(), String::new(), 30),
    ]));
    runs.add_workflow_runs(WorkflowRuns::empty());
    assert_eq!(ids(&runs), vec![1, 2, 1]);
    assert_eq!(runs.get_length(), 3);
}

#[test]
fn unseen_runs_are_added_once() {
    let mut runs = WorkflowRuns::new(vec![
        WorkflowRun::created(1, "first".to_string(), String::new(), 30),
        WorkflowRun::created(2, String::new(), String::new(), 20),
    ]);
    runs.add_unseen_workflow_runs(WorkflowRuns::new(vec![
        WorkflowRun::created(2, String::new(), String::new(), 20),
        WorkflowRun::created(3, String::new(), String::new(), 10),
        WorkflowRun::created(1, "again".to_string(), String::new(), 30),
        WorkflowRun::created(3, String::new(), String::new(), 10),
        WorkflowRun::created(4, String::new(), String::new(), 5),
    ]));
    assert_eq!(ids(&runs), vec![1, 2, 3, 4]);
    assert_eq!(runs.get_workflow_runs()[0].get_created_at(), "first");
    assert!(runs.contains_id(3));
    assert!(!runs.contains_id(5));
}

#[test]
fn copy_of_a_list_of_runs() {
    let runs = WorkflowRuns::new(vec![
        WorkflowRun::created(1, "a".to_string(), "s".to_string(), 30),
        WorkflowRun::created(2, "b".to_string(), "t".to_string(), 20),
    ]);
    let copy = runs.clone();
    assert_eq!(ids(&copy), vec![1, 2]);
    assert_eq!(copy.get_workflow_runs()[1].get_created_at(), "b");
    assert_eq!(copy.get_workflow_runs()[1].get_status(), "t");
    assert_eq!(copy.get_workflow_runs()[1].get_seconds(), 20);
}

#[test]
fn workflow_and_workflows() {
    let w = Workflow::new(11, "build".to_string());
    assert_eq!(w.get_id(), 11);
    assert_eq!(w.get_name(), "build");
    let all = Workflows::new(vec![w.clone(), Workflow::new(12, "test".to_string())]);
    let list = all.get_workflows();
    assert_eq!(list.len(), 2);
    assert_eq!(list[0].get_id(), 11);
    assert_eq!(list[0].get_name(), "build");
    assert_eq!(list[1].get_id(), 12);
    assert_eq!(list[1].get_name(), "test");
    assert!(Workflows::new(Vec::new()).get_workflows().is_empty());
}

#[test]
fn timing_and_timings() {
    let t = Timing::new(5, Some(1200), None);
    assert_eq!(t.get_run_id(), 5);
    assert_eq!(t.get_billable_total_ms(), Some(1200));
    assert_eq!(t.get_run_duration_ms(), None);
    let all = Timings::new(vec![
        t,
        Timing::new(6, None, Some(7)),
        Timing::new(5, Some(1), Some(2)),
    ]);
    assert_eq!(all.get_length(), 3);
    assert_eq!(all.find(5).unwrap().get_billable_total_ms(), Some(1200));
    assert_eq!(all.find(6).unwrap().get_run_duration_ms(), Some(7));
    assert!(all.find(7).is_none());
    assert!(Timings::new(Vec::new()).find(5).is_none());
}

#[test]
fn default_records_are_empty() {
    let w = Workflow::default();
    assert_eq!(w.get_id(), 0);
    assert_eq!(w.get_name(), "");
    assert!(Workflows::default().get_workflows().is_empty());
    assert_eq!(WorkflowRuns::default().get_length(), 0);
    let t = Timing::default();
    assert_eq!(t.get_run_id(), 0);
    assert_eq!(t.get_billable_total_ms(), None);
    assert_eq!(t.get_run_duration_ms(), None);
    assert_eq!(Timings::default().get_length(), 0);
}
