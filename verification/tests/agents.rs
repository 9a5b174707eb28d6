use orca::agent::{AgentInput, AgentSpec, NodeKind};
use orca::agent_backend::{
    agent_command, agent_output, build_prompt, default_copilot_args, model_from_args, render_arg,
};
use orca::artifacts::{sanitize_file_stem, with_artifact_path, ArtifactWorkspace};
use orca::agent::AgentOutput;
use orca::model::{CommandOutcome, CommandResult};

fn input(goal: &str, context: &str) -> AgentInput {
    AgentInput { goal: goal.to_string(), context: context.to_string() }
}

#[test]
fn default_copilot_args_use_prompt_flag() {
    let args = default_copilot_args("plan", &input("improve instructions", "prior feedback"), "plan carefully");

    assert!(args.contains(&"-p".to_string()));
    assert!(args.contains(&"--silent".to_string()));
    assert!(args.contains(&"--no-ask-user".to_string()));
    assert!(!args.contains(&"--allow-all-tools".to_string()));
    assert!(args.iter().any(|arg| arg.contains("improve instructions")));
}

#[test]
fn default_work_agent_args_allow_tools() {
    let args = default_copilot_args("implementation", &input("implement", ""), "do the work");

    assert!(args.contains(&"--allow-all-tools".to_string()));
    assert!(args.windows(2).any(|pair| pair[0] == "--model" && pair[1] == "gpt-5.5"));
    assert!(args.contains(&"-p".to_string()));
}

#[test]
fn default_feature_generation_agent_args_do_not_allow_tools() {
    let args = default_copilot_args("feature", &input("clarify feature", "prior feedback"), "generate feature context");

    assert!(args.contains(&"-p".to_string()));
    assert!(!args.contains(&"--allow-all-tools".to_string()));
}

#[test]
fn prompts_and_templates() {
    let i = input("G", "C");
    assert_eq!(build_prompt(&i, "I"), "I\n\nGoal:\nG\n\nContext:\nC");
    assert_eq!(render_arg("{goal}/{context}/{instructions}", &i, "I"), "G/C/I");
    assert_eq!(render_arg("[{prompt}]", &i, "I"), "[I\n\nGoal:\nG\n\nContext:\nC]");
}

#[test]
fn model_is_read_from_copilot_arguments() {
    let args = vec!["--model".to_string(), "m1".to_string(), "--model".to_string(), "m2".to_string()];
    assert_eq!(model_from_args("copilot", &args), Some("m1".to_string()));
    assert_eq!(model_from_args("copilot", &vec!["--model".to_string()]), Some("default".to_string()));
    assert_eq!(model_from_args("other", &args), None);
}

fn spec(command: &str, args: Vec<&str>) -> AgentSpec {
    AgentSpec {
        id: "agent-1".to_string(),
        kind: NodeKind::Gate,
        output_contract: "test".to_string(),
        artifact_dir: Some("tests".to_string()),
        phase_label: Some("testing".to_string()),
        instruction: None,
        command: command.to_string(),
        args: args.into_iter().map(str::to_string).collect(),
        input_sources: Vec::new(),
        depends_on: Vec::new(),
        resources: Vec::new(),
        timeout_secs: Some(30),
        retries: 2,
        retry_delay_ms: Some(10),
    }
}

#[test]
fn agent_commands_carry_environment_and_arguments() {
    let c = agent_command(&spec("copilot", vec![]), &input("g", "c"), "i");
    let names: Vec<&str> = c.env.iter().map(|(k, _)| k.as_str()).collect();
    assert_eq!(
        names,
        vec!["ORCA_AGENT_ID", "ORCA_CONTEXT", "ORCA_GOAL", "ORCA_INSTRUCTIONS", "ORCA_NODE_KIND", "ORCA_OUTPUT_CONTRACT"]
    );
    assert_eq!(c.env[4].1, "Gate");
    assert_eq!(c.args, vec!["--silent", "--no-ask-user", "--allow-all-tools", "-p", "i\n\nGoal:\ng\n\nContext:\nc"]);
    assert_eq!(c.output_model.as_deref(), Some("default"));
    assert_eq!(c.retries, 2);
    let e = agent_command(&spec("echo", vec!["{goal}"]), &input("g", "c"), "i");
    assert_eq!(e.args, vec!["g"]);
    assert_eq!(e.output_model, None);
}

#[test]
fn agent_results_become_outputs_or_failures() {
    let s = spec("echo", vec![]);
    let mut r = CommandResult {
        id: "agent-1".to_string(),
        outcome: CommandOutcome::Success,
        exit_code: Some(0),
        attempts: 1,
        stdout: "body".to_string(),
        stderr: String::new(),
        error: None,
    };
    let o = agent_output(&s, CommandResult { stdout: "body".to_string(), ..r.clone() }).ok().unwrap();
    assert_eq!(o.content, "body");
    assert_eq!(o.artifact_dir.as_deref(), Some("tests"));
    r.outcome = CommandOutcome::Failed;
    r.stderr = "  boom \n".to_string();
    let e = agent_output(&s, r).err().unwrap();
    assert_eq!(e.message(), "agent `agent-1` failed: agent command failed: boom");
}

#[test]
fn feature_generation_artifact_uses_feature_generation_directory() {
    let workspace = ArtifactWorkspace::at(ArtifactWorkspace::run_root(Some("base"), 42));
    let output = AgentOutput {
        agent_id: "feature-generator".to_string(),
        kind: NodeKind::Agent,
        output_contract: "feature".to_string(),
        phase_label: Some("feature_generation".to_string()),
        artifact_dir: Some("feature-generation".to_string()),
        content: "feature context".to_string(),
        artifact_path: String::new(),
    };

    let path = workspace.output_path(Some(1), &output);
    let persisted = with_artifact_path(&output, path);

    assert!(persisted.artifact_path.ends_with("iteration-1/feature-generation/feature-generator.md"));
    assert_eq!(workspace.root(), "base/run-42");
}

#[test]
fn artifact_names_are_sanitized() {
    assert_eq!(sanitize_file_stem("a b/c_d-é"), "a-b-c_d--");
    let workspace = ArtifactWorkspace::at("root".to_string());
    let output = AgentOutput {
        agent_id: "x".to_string(),
        kind: NodeKind::Agent,
        output_contract: "golden_plan".to_string(),
        phase_label: None,
        artifact_dir: None,
        content: String::new(),
        artifact_path: String::new(),
    };
    assert_eq!(workspace.output_path(None, &output), "root/golden-plan/x.md");
}
