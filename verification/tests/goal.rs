use orca::agent::{AgentOutput, ApprovalMode, NodeKind};
use orca::goal::{ApprovalGate, GoalSummary};
use orca::model::{CommandOutcome, CommandResult, RunSummary};

#[test]
fn approval_gate_modes() {
    assert!(ApprovalGate::new(ApprovalMode::Auto, false).approved());
    assert!(!ApprovalGate::new(ApprovalMode::Manual, false).approved());
    assert!(ApprovalGate::new(ApprovalMode::Manual, true).approved());
}

#[test]
fn goal_summary_renders_every_field() {
    let summary = GoalSummary {
        goal: "ship".to_string(),
        artifact_root: "runs/run-1".to_string(),
        approved: true,
        completed: false,
        iterations: 2,
        feedback: Some("more tests".to_string()),
        golden_plan_path: None,
        outputs: vec![AgentOutput {
            agent_id: "t".to_string(),
            kind: NodeKind::Agent,
            output_contract: "test".to_string(),
            phase_label: None,
            artifact_dir: None,
            content: String::new(),
            artifact_path: "runs/run-1/t.md".to_string(),
        }],
        json: false,
    };
    assert_eq!(
        summary.render(),
        "goal: ship\nartifact_root: runs/run-1\napproved: true\ncompleted: false\niterations: 2\nfeedback: more tests\nt test: runs/run-1/t.md\nexit_code=1"
    );
    assert_eq!(summary.exit_code(), 1);
}

#[test]
fn run_summary_exit_code_reflects_failures() {
    let ok = CommandResult {
        id: "a".to_string(),
        outcome: CommandOutcome::Success,
        exit_code: Some(0),
        attempts: 1,
        stdout: String::new(),
        stderr: String::new(),
        error: None,
    };
    let summary = RunSummary { results: vec![ok.clone()] };
    assert_eq!(summary.exit_code(), 0);
    let mut bad = ok.clone();
    bad.outcome = CommandOutcome::TimedOut;
    let summary = RunSummary { results: vec![ok, bad] };
    assert_eq!(summary.exit_code(), 1);
}
