use orca::settings::{workflow_configs_of, 
    default_settings_candidates, is_workflow_config, resolve_in_sources, Settings,
};

#[test]
fn default_settings_search_config_directory_for_default_workflow() {
    let settings = Settings::default();

    assert_eq!(settings.resolve_workflow_config(None), "config/orca.default.toml".to_string());
}

#[test]
fn explicit_workflow_path_wins_over_source_search() {
    let settings = Settings::default();

    assert_eq!(
        settings.resolve_workflow_config(Some("custom/workflow.toml")),
        "custom/workflow.toml".to_string()
    );
}

#[test]
fn lookup_among_sources_prefers_an_existing_candidate() {
    let sources = vec!["first".to_string(), "second".to_string()];
    assert_eq!(resolve_in_sources("wf.toml", &sources, false, &vec![false, true]), "second/wf.toml");
    assert_eq!(resolve_in_sources("wf.toml", &sources, false, &vec![false, false]), "first/wf.toml");
    assert_eq!(resolve_in_sources("wf.toml", &sources, true, &vec![false, true]), "wf.toml");
    assert_eq!(resolve_in_sources("/abs/wf.toml", &sources, false, &vec![true, true]), "/abs/wf.toml");
    assert_eq!(resolve_in_sources("wf.toml", &Vec::new(), false, &Vec::new()), "wf.toml");
}

#[test]
fn settings_validation_messages() {
    let mut settings = Settings::default();
    assert!(settings.validate_given(&vec![false], &vec![false], &vec![false]).is_ok());
    let err = settings.validate_given(&vec![false], &vec![true], &vec![false]).err().unwrap();
    assert_eq!(err.message(), "invalid config: settings.sources.instructions `instructions` must be a directory");
    settings.sources.agents.push(String::new());
    let err = settings.validate_given(&vec![false, false], &vec![false], &vec![false]).err().unwrap();
    assert_eq!(err.message(), "invalid config: settings.sources.agents must not contain empty paths");
    settings.sources.agents.pop();
    settings.defaults.max_parallel_agents = Some(0);
    let err = settings.validate_given(&vec![false], &vec![false], &vec![false]).err().unwrap();
    assert_eq!(err.message(), "invalid config: settings.defaults.max_parallel_agents must be greater than zero");
}

#[test]
fn candidates_use_home_then_user_profile() {
    assert_eq!(
        default_settings_candidates(Some("/home/u"), Some("/p")),
        vec!["settings.toml".to_string(), "/home/u/.config/orca/settings.toml".to_string()]
    );
    assert_eq!(
        default_settings_candidates(Some(""), Some("/p")),
        vec!["settings.toml".to_string(), "/p/.config/orca/settings.toml".to_string()]
    );
    assert_eq!(default_settings_candidates(None, None), vec!["settings.toml".to_string()]);
}

#[test]
fn instruction_sources_in_order() {
    let settings = Settings::default();
    assert_eq!(
        settings.instruction_sources(Some("explicit"), Some("cfg")),
        vec!["explicit".to_string(), "instructions".to_string(), "cfg".to_string()]
    );
    assert_eq!(settings.instruction_sources(None, None), vec!["instructions".to_string()]);
}

#[test]
fn workflow_files_by_extension() {
    assert!(is_workflow_config("a/b.toml"));
    assert!(is_workflow_config("x.yml"));
    assert!(is_workflow_config("x.yaml"));
    assert!(!is_workflow_config("notes.md"));
    assert!(!is_workflow_config(".toml"));
}

#[test]
fn workflow_configs_keep_workflow_files_sorted_as_paths() {
    let found = vec![
        "workflows/nested/b.yaml".to_string(),
        "workflows/ignored.md".to_string(),
        "workflows/a.toml".to_string(),
    ];
    assert_eq!(
        workflow_configs_of(found),
        vec!["workflows/a.toml".to_string(), "workflows/nested/b.yaml".to_string()]
    );
}

#[test]
fn workflow_configs_order_by_path_components_and_drop_repeats() {
    let found = vec![
        "a-b/x.toml".to_string(),
        "a/b.yml".to_string(),
        "a/b.yml".to_string(),
        "a//b.yml".to_string(),
    ];
    assert_eq!(
        workflow_configs_of(found),
        vec!["a/b.yml".to_string(), "a-b/x.toml".to_string()]
    );
}

#[test]
fn workflow_candidates_list_the_path_then_each_source() {
    let mut settings = Settings::default();
    settings.sources.workflows = vec!["config".to_string(), "more".to_string()];
    assert_eq!(
        settings.workflow_candidates(Some("flow.toml")),
        vec!["flow.toml".to_string(), "config/flow.toml".to_string(), "more/flow.toml".to_string()]
    );
}
