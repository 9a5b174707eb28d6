use orca::agent::NodeKind;
use orca::config::{
    BranchCondition, InputSelector, OrchestrationConfig, OrchestrationConnection, OrchestrationDefaults,
    OrchestrationNode,
};
use orca::defaults::{default_copilot_args_for_contract, default_orchestration_config};

fn node(id: &str, kind: NodeKind, instruction: Option<&str>) -> OrchestrationNode {
    OrchestrationNode {
        id: id.to_string(),
        kind,
        evaluation: None,
        output_contract: "generic".to_string(),
        artifact_dir: None,
        phase_label: None,
        instruction: instruction.map(str::to_string),
        backend: None,
        model: None,
        command: None,
        args: Vec::new(),
        depends_on: Vec::new(),
        resources: Vec::new(),
        timeout_secs: None,
        retries: None,
        retry_delay_ms: None,
        inputs: Vec::new(),
    }
}

fn connection(from: &str, condition: Option<BranchCondition>, to: Vec<&str>) -> OrchestrationConnection {
    OrchestrationConnection {
        from: from.to_string(),
        to: to.into_iter().map(str::to_string).collect(),
        condition,
    }
}

fn orchestration(nodes: Vec<OrchestrationNode>, connections: Vec<OrchestrationConnection>) -> OrchestrationConfig {
    OrchestrationConfig {
        instruction_dir: None,
        artifact_dir: None,
        max_parallel_agents: None,
        min_successful_planners: None,
        min_successful_critics: None,
        max_iterations: None,
        approval_mode: None,
        defaults: None,
        backends: Vec::new(),
        nodes,
        connections,
    }
}

#[test]
fn default_orchestration_uses_workspace_writer_resources() {
    let config = default_orchestration_config();
    let agents = config.into_agent_config().ok().unwrap();

    assert_eq!(
        agents
            .specs
            .iter()
            .filter(|spec| spec.output_contract == "implementation"
                && spec.resources.contains(&"workspace-writer".to_string()))
            .count(),
        1
    );
    assert_eq!(
        agents
            .specs
            .iter()
            .filter(|spec| spec.output_contract == "test"
                && spec.resources.contains(&"workspace-writer".to_string()))
            .count(),
        1
    );
}

#[test]
fn branch_nodes_parse_conditional_routes_and_expand_dependencies() {
    let mut check = node("quality-check", NodeKind::Branch, None);
    check.evaluation = Some("input contains signed_off = true".to_string());
    let config = orchestration(
        vec![
            node("source", NodeKind::Agent, Some("source.md")),
            check,
            node("accepted", NodeKind::Agent, Some("accepted.md")),
            node("revise", NodeKind::Agent, Some("revise.md")),
        ],
        vec![
            connection("source", None, vec!["quality-check"]),
            connection("quality-check", Some(BranchCondition::True), vec!["accepted"]),
            connection("quality-check", Some(BranchCondition::False), vec!["revise"]),
        ],
    );

    let agents = config.into_agent_config().ok().unwrap();
    let accepted = agents.specs.iter().find(|spec| spec.id == "accepted").unwrap();
    let revise = agents.specs.iter().find(|spec| spec.id == "revise").unwrap();

    assert_eq!(accepted.depends_on, vec!["source"]);
    assert_eq!(revise.depends_on, vec!["source"]);
    assert!(!agents.specs.iter().any(|spec| spec.id == "quality-check"));
}

#[test]
fn branch_nodes_require_true_and_false_routes() {
    let mut check = node("check", NodeKind::Branch, None);
    check.evaluation = Some("input is complete".to_string());
    let config = orchestration(
        vec![check, node("accepted", NodeKind::Agent, Some("accepted.md"))],
        vec![connection("check", Some(BranchCondition::True), vec!["accepted"])],
    );

    let error = config.validate().err().unwrap();
    assert!(error.message().contains("true and false"));
}

#[test]
fn node_inputs_require_non_empty_sources() {
    let mut consumer = node("consumer", NodeKind::Agent, Some("consumer.md"));
    consumer.inputs = vec![InputSelector { source: String::new() }];
    let config = orchestration(vec![consumer], Vec::new());

    let error = config.validate().err().unwrap();
    assert!(error.message().contains("input source must not be empty"));
}

#[test]
fn default_orchestration_is_a_valid_graph_of_agents() {
    let config = default_orchestration_config();
    assert!(config.validate().is_ok());
    assert_eq!(config.nodes.len(), 21);
    assert_eq!(config.connections.len(), 19);
    let work = &config.nodes[18];
    assert_eq!(work.id, "work-agent");
    assert_eq!(work.model.as_deref(), Some("gpt-5.5"));
    assert_eq!(work.artifact_dir.as_deref(), Some("work"));
    let orchestrator = &config.nodes[9];
    assert_eq!(orchestrator.artifact_dir.as_deref(), Some("golden-plan"));
    assert_eq!(orchestrator.inputs.len(), 9);
}

#[test]
fn default_nodes_keep_artifacts_in_their_phase_directories() {
    let config = default_orchestration_config();
    let dir = |id: &str| {
        config.nodes.iter().find(|n| n.id == id).and_then(|n| n.artifact_dir.clone()).unwrap()
    };
    assert_eq!(dir("feature-generator"), "feature-generation");
    assert_eq!(dir("planner-c"), "planning");
    assert_eq!(dir("critic-a"), "critique");
    assert_eq!(dir("orchestrator"), "golden-plan");
    assert_eq!(dir("kpi-agent"), "kpi");
    assert_eq!(dir("kpi-measure-agent"), "kpi-measurement");
    assert_eq!(dir("test-planner-b"), "test-planning");
    assert_eq!(dir("golden-test-plan"), "golden-test-plan");
    assert_eq!(dir("test-agent"), "tests");
    assert_eq!(dir("work-agent"), "work");
    assert_eq!(dir("coverage-agent"), "feature-coverage");
    assert_eq!(dir("feedback-agent"), "feedback");
}

#[test]
fn contract_arguments_of_the_default_backend() {
    assert_eq!(
        default_copilot_args_for_contract("implementation"),
        vec!["--silent", "--no-ask-user", "--model", "gpt-5.5", "--allow-all-tools", "-p", "{prompt}"]
    );
    assert_eq!(default_copilot_args_for_contract("plan"), vec!["--silent", "--no-ask-user", "-p", "{prompt}"]);
    assert_eq!(
        default_copilot_args_for_contract("parallel"),
        vec!["--silent", "--no-ask-user", "--allow-all-tools", "-p", "{prompt}"]
    );
}

#[test]
fn cycles_are_reported_by_a_node_on_them() {
    let mut a = node("a", NodeKind::Agent, Some("a.md"));
    a.depends_on = vec!["b".to_string()];
    let mut b = node("b", NodeKind::Agent, Some("b.md"));
    b.depends_on = vec!["a".to_string()];
    let config = orchestration(vec![a, b], Vec::new());
    let message = config.validate().err().unwrap().message();
    assert!(
        message == "invalid config: orchestration dependency cycle includes `a`"
            || message == "invalid config: orchestration dependency cycle includes `b`"
    );
}

#[test]
fn conversion_refuses_an_unknown_default_backend_that_validation_accepts() {
    let mut config = orchestration(vec![node("worker", NodeKind::Agent, Some("work.md"))], Vec::new());
    config.defaults = Some(OrchestrationDefaults {
        backend: Some("missing".to_string()),
        model: None,
        timeout_secs: None,
        retries: None,
        retry_delay_ms: None,
    });
    assert!(config.validate().is_ok());
    let error = config.into_agent_config().err().unwrap();
    assert_eq!(
        error.message(),
        "invalid config: node `worker` references unknown backend `missing`"
    );
}
