use orca::agent::{AgentSpec, NodeKind};
use orca::config::AppConfig;
use orca::errors::AppError;
use orca::loading::{
    choose_instruction, config_format, config_probe_paths, default_config_candidates, empty_config,
    instruction_candidates, instruction_name, is_embedded_instruction, refuse_legacy_agents,
    resolve_config_path_given, ConfigFormat, InstructionSource,
};

fn spec(instruction: Option<&str>) -> AgentSpec {
    AgentSpec {
        id: "planner".to_string(),
        kind: NodeKind::Agent,
        output_contract: "plan".to_string(),
        artifact_dir: None,
        phase_label: None,
        instruction: instruction.map(str::to_string),
        command: "copilot".to_string(),
        args: Vec::new(),
        input_sources: Vec::new(),
        depends_on: Vec::new(),
        resources: Vec::new(),
        timeout_secs: None,
        retries: 0,
        retry_delay_ms: None,
    }
}

#[test]
fn existing_config_paths_are_kept() {
    assert_eq!(resolve_config_path_given("x.toml", true, &vec![false, false, false]), "x.toml");
    assert_eq!(resolve_config_path_given("x.toml", false, &vec![true, true, true]), "x.toml");
}

#[test]
fn missing_default_config_falls_back_to_first_existing_candidate() {
    let default = "config/orca.default.toml";
    assert_eq!(resolve_config_path_given(default, false, &vec![false, true, true]), "config/orca.yaml");
    assert_eq!(resolve_config_path_given(default, false, &vec![false, false, true]), "config/orca.yml");
    assert_eq!(resolve_config_path_given(default, false, &vec![false, false, false]), default);
    assert_eq!(
        default_config_candidates(),
        vec![
            "config/orca.default.toml".to_string(),
            "config/orca.yaml".to_string(),
            "config/orca.yml".to_string()
        ]
    );
}

#[test]
fn yaml_extensions_select_yaml() {
    assert_eq!(config_format("config/orca.yaml"), ConfigFormat::Yaml);
    assert_eq!(config_format("orca.yml"), ConfigFormat::Yaml);
    assert_eq!(config_format("orca.toml"), ConfigFormat::Toml);
    assert_eq!(config_format("orca"), ConfigFormat::Toml);
}

#[test]
fn legacy_agents_tables_are_refused() {
    let mut config: AppConfig = empty_config();
    config.agents = true;
    match refuse_legacy_agents(config) {
        Err(AppError::InvalidConfig(message)) => assert!(message.contains("legacy [agents]")),
        other => panic!("unexpected {other:?}"),
    }
    assert!(refuse_legacy_agents(empty_config()).is_ok());
}

#[test]
fn instruction_names_are_required() {
    assert_eq!(instruction_name(&spec(Some("planning.md"))).ok(), Some("planning.md".to_string()));
    match instruction_name(&spec(None)) {
        Err(AppError::InvalidConfig(message)) => {
            assert_eq!(message, "agent node `planner` must set instruction")
        }
        other => panic!("unexpected {other:?}"),
    }
}

#[test]
fn instruction_files_win_over_embedded_ones() {
    let dirs = vec!["prompts".to_string(), "instructions".to_string()];
    let candidates = instruction_candidates(&dirs, "planning.md");
    assert_eq!(candidates, vec!["prompts/planning.md".to_string(), "instructions/planning.md".to_string()]);
    assert_eq!(
        choose_instruction("planning.md", &candidates, &vec![false, true]).ok(),
        Some(InstructionSource::File("instructions/planning.md".to_string()))
    );
    assert_eq!(
        choose_instruction("planning.md", &candidates, &vec![false, false]).ok(),
        Some(InstructionSource::Embedded("planning.md".to_string()))
    );
    match choose_instruction("custom.md", &candidates, &vec![false, false]) {
        Err(AppError::InvalidConfig(message)) => assert_eq!(
            message,
            "instruction `custom.md` was not found in the configured instruction_dir or embedded instructions"
        ),
        other => panic!("unexpected {other:?}"),
    }
    assert!(is_embedded_instruction("copilot_cli_helper.md"));
    assert!(!is_embedded_instruction("custom.md"));
}

#[test]
fn config_probes_are_the_path_then_the_default_candidates() {
    assert_eq!(
        config_probe_paths("orca.toml"),
        vec![
            "orca.toml".to_string(),
            "config/orca.default.toml".to_string(),
            "config/orca.yaml".to_string(),
            "config/orca.yml".to_string(),
        ]
    );
}
