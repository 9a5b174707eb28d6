use orca::agent::{AgentInput, AgentOutput, AgentSpec, NodeKind};
use orca::completion::CompletionReport;
use orca::defaults::default_orchestration_config;
use orca::orchestrator::{
    build_context, goal_artifact_dir, input_glimpse, iteration_summary_text, plan_goal, truncate_plain,
    validate_agent_config, GoalProgress, GraphRunState, InputBundle,
};

fn spec(id: &str, input_sources: Vec<&str>, depends_on: Vec<&str>, resources: Vec<&str>) -> AgentSpec {
    AgentSpec {
        id: id.to_string(),
        kind: NodeKind::Agent,
        output_contract: "generic".to_string(),
        artifact_dir: None,
        phase_label: None,
        instruction: Some("planning.md".to_string()),
        command: "echo".to_string(),
        args: Vec::new(),
        input_sources: input_sources.into_iter().map(str::to_string).collect(),
        depends_on: depends_on.into_iter().map(str::to_string).collect(),
        resources: resources.into_iter().map(str::to_string).collect(),
        timeout_secs: None,
        retries: 0,
        retry_delay_ms: None,
    }
}

fn out(id: &str, contract: &str, content: &str) -> AgentOutput {
    AgentOutput {
        agent_id: id.to_string(),
        kind: NodeKind::Agent,
        output_contract: contract.to_string(),
        phase_label: None,
        artifact_dir: None,
        content: content.to_string(),
        artifact_path: format!("{id}.md"),
    }
}

#[test]
fn default_goal_config_uses_contracts_not_roles() {
    let config = default_orchestration_config()
        .into_agent_config()
        .ok()
        .expect("default config is valid");

    assert!(config.specs.iter().all(|spec| spec.command == "copilot"));
    assert!(config.specs.iter().any(|spec| spec.output_contract == "coverage"));
    assert!(config.specs.iter().any(|spec| spec.output_contract == "feedback"));
    assert_eq!(config.max_parallel_agents, Some(8));
}

#[test]
fn context_uses_only_ordered_inputs_not_dependencies() {
    let spec = spec("consumer", vec!["far-source"], vec!["scheduler-only"], vec![]);
    let outputs = vec![
        out("far-source", "generic", "far content"),
        out("scheduler-only", "generic", "must not appear"),
    ];

    let context = build_context(&spec, "goal", "", "", &outputs);

    assert!(context.contains("## far-source"));
    assert!(context.contains("far content"));
    assert!(!context.contains("must not appear"));
}

#[test]
fn context_renders_multiple_inputs_in_configured_order() {
    let spec = spec("consumer", vec!["second", "goal", "first"], vec![], vec![]);
    let outputs = vec![out("first", "generic", "first body"), out("second", "generic", "second body")];

    let context = build_context(&spec, "goal body", "", "", &outputs);

    assert_eq!(
        context,
        "## second\n\nsecond body\n\n## goal\n\ngoal body\n\n## first\n\nfirst body"
    );
}

#[test]
fn context_skips_blank_sources_and_unknown_outputs() {
    let spec = spec("c", vec!["feedback", "missing", "gate-feedback"], vec![], vec![]);
    let context = build_context(&spec, "g", "  \n", "fix tests", &Vec::new());
    assert_eq!(context, "## gate-feedback\n\nfix tests");
}

#[test]
fn bundle_of_outputs_renders_each_with_content() {
    let outputs = vec![out("a", "feedback", "one"), out("b", "feedback", " "), out("c", "feedback", "three")];
    assert_eq!(InputBundle::from_outputs(&outputs).render(), "## a\n\none\n\n## c\n\nthree");
}

#[test]
fn truncation_collapses_whitespace_and_marks_the_cut() {
    assert_eq!(truncate_plain("  a \n b\tc  ", 10), "a b c");
    assert_eq!(truncate_plain("abcdef", 4), "abc…");
    assert_eq!(truncate_plain("abcd", 4), "abcd");
    assert_eq!(truncate_plain("abc", 0), "…");
}

#[test]
fn glimpse_shows_goal_and_first_context_line() {
    let input = AgentInput { goal: "ship it".to_string(), context: "\n\n  ## feedback  \nmore".to_string() };
    assert_eq!(input_glimpse(&input), "goal: ship it | context: ## feedback");
}

#[test]
fn iteration_summary_texts() {
    let (h, n) = iteration_summary_text(2, false, true, "\n tests failed \nmore", 3);
    assert_eq!(h, "Iteration 2: completion gates did not pass.");
    assert_eq!(n, "Starting another iteration because tests failed.");
    let (h, n) = iteration_summary_text(3, false, false, "", 3);
    assert_eq!(h, "Iteration 3: completion gates did not pass.");
    assert_eq!(n, "Stopping because max_iterations (3) was reached.");
    let (_, n) = iteration_summary_text(3, false, false, "coverage low", 3);
    assert_eq!(n, "Stopping because max_iterations (3) was reached; last reason: coverage low.");
    let (h, n) = iteration_summary_text(1, true, true, "", 3);
    assert_eq!(h, "Iteration 1: all completion gates passed.");
    assert_eq!(n, "Goal complete; no further iterations.");
}

#[test]
fn agent_configuration_errors() {
    let mut config = default_orchestration_config().into_agent_config().ok().unwrap();
    config.specs[1].command = " ".to_string();
    let err = validate_agent_config(&config).err().unwrap();
    assert_eq!(err.message(), "invalid config: agent `planner-a` command must not be empty");
    config.specs.clear();
    let err = validate_agent_config(&config).err().unwrap();
    assert_eq!(err.message(), "invalid config: orchestration.nodes must contain at least one agent node");
}

#[test]
fn goal_plan_splits_feedback_agents_and_settles_parallelism() {
    let config = default_orchestration_config().into_agent_config().ok().unwrap();
    let plan = plan_goal(config, None, Some(3), false).ok().unwrap();
    assert_eq!(plan.max_parallel, 3);
    assert_eq!(plan.max_iterations, 10);
    assert!(plan.approved);
    assert_eq!(plan.feedback_specs.len(), 1);
    assert_eq!(plan.main_specs.len(), 20);
    let config = default_orchestration_config().into_agent_config().ok().unwrap();
    let err = plan_goal(config, Some(0), None, false).err().unwrap();
    assert_eq!(err.message(), "invalid config: orchestration.max_parallel_agents must be greater than zero");
}

#[test]
fn graph_run_respects_dependencies_resources_and_order() {
    let specs = vec![
        spec("a", vec![], vec!["goal"], vec!["w"]),
        spec("b", vec![], vec![], vec!["w"]),
        spec("c", vec![], vec!["a"], vec![]),
    ];
    let mut st = GraphRunState::new(specs, 2, true);
    let (o1, s1) = st.start_next().unwrap();
    assert_eq!((o1, s1.id.as_str()), (0, "a"));
    // b needs the resource held by a; c waits for a
    assert!(st.start_next().is_none());
    st.finish(0, out("a", "generic", "A"), &s1.resources);
    let (o2, s2) = st.start_next().unwrap();
    assert_eq!((o2, s2.id.as_str()), (1, "b"));
    let (o3, s3) = st.start_next().unwrap();
    assert_eq!((o3, s3.id.as_str()), (2, "c"));
    st.finish(2, out("c", "generic", "C"), &s3.resources);
    st.finish(1, out("b", "generic", "B"), &s2.resources);
    assert!(st.stalled().is_none());
    let ids: Vec<String> = st.into_outputs().into_iter().map(|o| o.agent_id).collect();
    assert_eq!(ids, vec!["a", "b", "c"]);
}

#[test]
fn graph_run_reports_blocked_nodes() {
    let specs = vec![spec("x", vec![], vec!["y"], vec![]), spec("z", vec![], vec!["y"], vec![])];
    let mut st = GraphRunState::new(specs, 4, true);
    assert!(st.start_next().is_none());
    let err = st.stalled().unwrap();
    assert_eq!(err.message(), "invalid config: graph could not make progress; blocked nodes: x, z");
}

#[test]
fn unapproved_golden_plan_stops_the_graph() {
    let specs = vec![spec("o", vec![], vec![], vec![]), spec("n", vec![], vec!["o"], vec![])];
    let mut st = GraphRunState::new(specs, 4, false);
    let (o, s) = st.start_next().unwrap();
    st.finish(o, out("o", "golden_plan", "plan"), &s.resources);
    assert!(st.stopped_for_approval);
    assert!(st.pending.is_empty());
    assert!(st.start_next().is_none());
}

#[test]
fn goal_progress_keeps_first_golden_plan_and_feedback() {
    let mut g = GoalProgress::new();
    g.main_graph_done(1, &vec![out("x", "plan", "p"), out("o", "golden_plan", "gp")]);
    assert_eq!(g.golden_plan_path.as_deref(), Some("o.md"));
    g.main_graph_done(2, &vec![out("o2", "golden_plan", "gp2")]);
    assert_eq!(g.golden_plan_path.as_deref(), Some("o.md"));
    let report = CompletionReport::evaluate(&vec![out("t", "test", "FAIL: broken")]);
    assert!(GoalProgress::wants_feedback_graph(&report, 1));
    g.iteration_done(&report, vec![out("t", "test", "FAIL: broken")], Some(vec![out("f", "feedback", "do better")]));
    assert!(!g.completed);
    assert_eq!(g.feedback, "## f\n\ndo better");
    assert_eq!(g.outputs.len(), 2);
    let summary = g.into_summary("goal".to_string(), "root".to_string(), true, false);
    assert_eq!(summary.feedback.as_deref(), Some("## f\n\ndo better"));
    assert_eq!(summary.exit_code(), 1);
}

#[test]
fn artifact_directory_follows_run_then_settings_then_workflow() {
    let run = Some("run-dir".to_string());
    let settings = Some("settings-dir".to_string());
    let workflow = Some("workflow-dir".to_string());
    assert_eq!(goal_artifact_dir(run.clone(), settings.clone(), workflow.clone()), run);
    assert_eq!(goal_artifact_dir(None, settings.clone(), workflow.clone()), settings);
    assert_eq!(goal_artifact_dir(None, None, workflow.clone()), workflow);
    assert_eq!(goal_artifact_dir(None, None, None), None);
}

#[test]
fn goal_runs_again_until_complete_or_out_of_iterations() {
    let mut progress = GoalProgress::new();
    progress.main_graph_done(1, &Vec::new());
    assert!(progress.runs_again(3));
    progress.main_graph_done(3, &Vec::new());
    assert!(!progress.runs_again(3));
    progress.main_graph_done(2, &Vec::new());
    progress.completed = true;
    assert!(!progress.runs_again(3));
}
