use orca::executor::{
    after_attempt, cancelled_result, max_attempts, result_of_wait, spawn_failed_result,
    timeout_message, CommandExecutor, NextStep, WaitOutcome,
};
use orca::model::{CommandOutcome, CommandResult, CommandSpec, ExecutionPlan};
use orca::scheduler::{RunState, Scheduler};

fn spec(id: &str, depends_on: Vec<&str>) -> CommandSpec {
    CommandSpec {
        id: id.to_string(),
        program: "true".to_string(),
        args: Vec::new(),
        depends_on: depends_on.into_iter().map(str::to_string).collect(),
        env: Vec::new(),
        cwd: None,
        timeout_secs: None,
        retries: 0,
        retry_delay_ms: None,
        output_label: None,
        output_phase: None,
        output_model: None,
    }
}

fn result(id: &str, outcome: CommandOutcome) -> CommandResult {
    CommandResult {
        id: id.to_string(),
        outcome,
        exit_code: None,
        attempts: 1,
        stdout: String::new(),
        stderr: String::new(),
        error: None,
    }
}

#[test]
fn skips_dependents_after_failure_in_continue_mode() {
    let plan = ExecutionPlan {
        max_concurrency: 2,
        continue_on_error: true,
        commands: vec![spec("fail", vec![]), spec("after", vec!["fail"])],
    };
    let _scheduler = Scheduler::new(CommandExecutor);
    let mut st = RunState::new(plan);
    st.skip_commands_with_failed_dependencies();
    let c = st.start_next().unwrap();
    assert_eq!(c.id, "fail");
    assert!(st.start_next().is_none());
    st.finish("fail".to_string(), result("fail", CommandOutcome::Failed));
    assert!(!st.stopping);
    st.skip_commands_with_failed_dependencies();
    assert!(st.pending.is_empty());
    let summary = st.into_summary();
    assert_eq!(summary.results.len(), 2);
    assert!(summary.results.iter().any(|result| result.id == "after"));
    assert_eq!(summary.exit_code(), 1);
}

#[test]
fn pending_commands_start_in_id_order_when_ready() {
    let plan = ExecutionPlan {
        max_concurrency: 1,
        continue_on_error: false,
        commands: vec![spec("b", vec![]), spec("a", vec![]), spec("c", vec!["a", "b"])],
    };
    let mut st = RunState::new(plan);
    let ids: Vec<&str> = st.pending.iter().map(|c| c.id.as_str()).collect();
    assert_eq!(ids, vec!["a", "b", "c"]);
    assert_eq!(st.start_next().unwrap().id, "a");
    assert!(st.start_next().is_none());
    st.finish("a".to_string(), result("a", CommandOutcome::Success));
    assert_eq!(st.start_next().unwrap().id, "b");
    st.finish("b".to_string(), result("b", CommandOutcome::Success));
    assert_eq!(st.start_next().unwrap().id, "c");
    assert_eq!(st.running_ids, vec!["c".to_string()]);
}

#[test]
fn failure_stops_the_run_and_cancels_running_commands() {
    let plan = ExecutionPlan {
        max_concurrency: 3,
        continue_on_error: false,
        commands: vec![spec("x", vec![]), spec("y", vec![]), spec("z", vec!["x"])],
    };
    let mut st = RunState::new(plan);
    st.start_next();
    st.start_next();
    st.finish("x".to_string(), result("x", CommandOutcome::Failed));
    assert!(st.stopping);
    st.stop();
    let summary = st.into_summary();
    let shown: Vec<(String, CommandOutcome)> =
        summary.results.iter().map(|r| (r.id.clone(), r.outcome)).collect();
    assert_eq!(
        shown,
        vec![
            ("x".to_string(), CommandOutcome::Failed),
            ("z".to_string(), CommandOutcome::Skipped),
            ("y".to_string(), CommandOutcome::Cancelled),
        ]
    );
    assert_eq!(summary.results[1].error.as_deref(), Some("not started after earlier failure"));
}

#[test]
fn idle_run_skips_unreachable_commands() {
    let plan = ExecutionPlan {
        max_concurrency: 2,
        continue_on_error: true,
        commands: vec![spec("w", vec!["missing"])],
    };
    let mut st = RunState::new(plan);
    assert!(st.start_next().is_none());
    st.settle_idle();
    let summary = st.into_summary();
    assert_eq!(summary.results[0].error.as_deref(), Some("dependencies did not complete successfully"));
}

#[test]
fn lost_task_stops_unless_continuing() {
    let plan = ExecutionPlan { max_concurrency: 1, continue_on_error: false, commands: vec![spec("a", vec![])] };
    let mut st = RunState::new(plan);
    st.start_next();
    st.task_lost();
    assert!(st.stopping);
    assert_eq!(st.running, 0);
}

#[test]
fn attempts_and_retries() {
    assert_eq!(max_attempts(0), 1);
    assert_eq!(max_attempts(2), 3);
    assert_eq!(max_attempts(u32::MAX), u32::MAX);
    assert_eq!(after_attempt(1, 3, false, false), NextStep::Retry);
    assert_eq!(after_attempt(3, 3, false, false), NextStep::Finish);
    assert_eq!(after_attempt(1, 3, true, false), NextStep::Finish);
    assert_eq!(after_attempt(1, 3, false, true), NextStep::Finish);
}

#[test]
fn results_of_each_way_a_process_ends() {
    let id = "cmd".to_string();
    let ok = result_of_wait(
        &id,
        2,
        WaitOutcome::Exited { success: true, code: Some(0), status: "exit status: 0".to_string() },
        "out\n".to_string(),
        String::new(),
    );
    assert!(ok.succeeded());
    assert_eq!(ok.attempts, 2);
    let bad = result_of_wait(
        &id,
        1,
        WaitOutcome::Exited { success: false, code: Some(3), status: "exit status: 3".to_string() },
        String::new(),
        "err".to_string(),
    );
    assert_eq!(bad.outcome, CommandOutcome::Failed);
    assert_eq!(bad.error.as_deref(), Some("process exited with status exit status: 3"));
    let t = result_of_wait(&id, 1, WaitOutcome::TimedOut(timeout_message(None, Some(5))), String::new(), String::new());
    assert_eq!(t.outcome, CommandOutcome::TimedOut);
    assert_eq!(t.error.as_deref(), Some("timed out after 5 seconds"));
    assert_eq!(timeout_message(Some("kill failed".to_string()), Some(5)), "kill failed");
    let c = cancelled_result(&id, 1, String::new(), String::new(), None);
    assert_eq!(c.error.as_deref(), Some("cancelled by user request"));
    let s = spawn_failed_result(&id, 1, "no such file".to_string());
    assert_eq!(s.outcome, CommandOutcome::SpawnFailed);
}

#[test]
fn cancels_on_first_failure_by_default() {
    let plan = ExecutionPlan {
        max_concurrency: 2,
        continue_on_error: false,
        commands: vec![spec("fail", vec![]), spec("slow", vec![])],
    };
    let mut st = RunState::new(plan);
    st.skip_commands_with_failed_dependencies();
    assert_eq!(st.start_next().unwrap().id, "fail");
    assert_eq!(st.start_next().unwrap().id, "slow");
    st.finish("fail".to_string(), result("fail", CommandOutcome::Failed));
    assert!(st.stopping);
    st.stop();
    let summary = st.into_summary();
    assert_eq!(summary.exit_code(), 1);
    let slow = summary.results.iter().find(|r| r.id == "slow").unwrap();
    assert_eq!(slow.outcome, CommandOutcome::Cancelled);
    assert!(summary.render().contains("Cancelled"));
}

#[test]
fn a_failing_command_uses_every_attempt_and_no_more() {
    let limit = max_attempts(2);
    let mut attempt: u32 = 1;
    while after_attempt(attempt, limit, false, false) == NextStep::Retry {
        attempt += 1;
    }
    assert_eq!(attempt, 3);
    assert_eq!(after_attempt(1, limit, false, true), NextStep::Finish);
}

#[test]
fn a_fail_fast_run_reports_every_command_exactly_once() {
    let plan = ExecutionPlan {
        max_concurrency: 2,
        continue_on_error: false,
        commands: vec![spec("a", vec![]), spec("b", vec!["a"]), spec("c", vec![])],
    };
    let mut st = RunState::new(plan);
    st.skip_commands_with_failed_dependencies();
    assert_eq!(st.start_next().unwrap().id, "a");
    assert_eq!(st.start_next().unwrap().id, "c");
    st.finish("a".to_string(), result("a", CommandOutcome::Failed));
    assert!(st.stopping);
    st.stop();
    assert!(st.start_next().is_none());
    let summary = st.into_summary();
    let ids: Vec<&str> = summary.results.iter().map(|r| r.id.as_str()).collect();
    assert_eq!(ids, vec!["a", "b", "c"]);
    assert_eq!(summary.results[1].outcome, CommandOutcome::Skipped);
    assert_eq!(summary.results[2].outcome, CommandOutcome::Cancelled);
}
