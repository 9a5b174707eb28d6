use orca::config::{AppConfig, CommandConfig};
use orca::planner::{build_plan, build_plan_in, PlanOptions};

fn command(id: &str, depends_on: Vec<&str>) -> CommandConfig {
    CommandConfig {
        id: id.to_string(),
        program: "true".to_string(),
        args: Vec::new(),
        depends_on: depends_on.into_iter().map(str::to_string).collect(),
        env: Default::default(),
        cwd: None,
        timeout_secs: None,
        retries: 0,
        retry_delay_ms: None,
    }
}

fn app_config(commands: Vec<CommandConfig>) -> AppConfig {
    AppConfig {
        max_concurrency: None,
        continue_on_error: None,
        orchestration: None,
        agents: false,
        commands,
    }
}

#[test]
fn detects_dependency_cycles() {
    let config = app_config(vec![command("a", vec!["b"]), command("b", vec!["a"])]);

    let err = build_plan(config, PlanOptions::new()).err().unwrap();
    assert!(err.message().contains("cycle"));
}

#[test]
fn selected_commands_include_dependencies() {
    let config = app_config(vec![
        command("setup", vec![]),
        command("build", vec!["setup"]),
        command("test", vec!["build"]),
    ]);

    let plan = build_plan(
        config,
        PlanOptions { only: vec!["test".to_string()], ..PlanOptions::new() },
    )
    .ok()
    .unwrap();

    let ids: Vec<_> = plan.commands.iter().map(|command| command.id.as_str()).collect();
    assert_eq!(ids, vec!["setup", "build", "test"]);
}

#[test]
fn plan_errors_in_validation_order() {
    let err = build_plan(app_config(Vec::new()), PlanOptions::new()).err().unwrap();
    assert_eq!(err.message(), "invalid config: at least one [[commands]] entry is required");

    let mut config = app_config(vec![command("a", vec![])]);
    config.max_concurrency = Some(0);
    let err = build_plan(config, PlanOptions::new()).err().unwrap();
    assert_eq!(err.message(), "invalid config: max_concurrency must be greater than zero");

    let err = build_plan(app_config(vec![command("a b", vec![])]), PlanOptions::new()).err().unwrap();
    assert_eq!(err.message(), "invalid config: command id `a b` must not contain whitespace");

    let err = build_plan(app_config(vec![command("a", vec![]), command("a", vec![])]), PlanOptions::new())
        .err()
        .unwrap();
    assert_eq!(err.message(), "invalid config: duplicate command id `a`");

    let err = build_plan(app_config(vec![command("a", vec!["a"])]), PlanOptions::new()).err().unwrap();
    assert_eq!(err.message(), "invalid config: command `a` cannot depend on itself");

    let err = build_plan(app_config(vec![command("a", vec!["z"])]), PlanOptions::new()).err().unwrap();
    assert_eq!(err.message(), "invalid config: command `a` depends on unknown command `z`");

    let mut c = command("a", vec![]);
    c.timeout_secs = Some(0);
    let err = build_plan(app_config(vec![c]), PlanOptions::new()).err().unwrap();
    assert_eq!(err.message(), "invalid config: command `a` timeout_secs must be greater than zero");

    let err = build_plan(
        app_config(vec![command("a", vec![])]),
        PlanOptions { only: vec!["nope".to_string()], ..PlanOptions::new() },
    )
    .err()
    .unwrap();
    assert_eq!(err.message(), "invalid config: requested command `nope` does not exist");
}

#[test]
fn working_directories_must_exist() {
    let mut c = command("a", vec![]);
    c.cwd = Some("some/dir".to_string());
    let err = build_plan_in(app_config(vec![c]), PlanOptions::new(), &vec![false]).err().unwrap();
    assert_eq!(err.message(), "invalid config: command `a` cwd `some/dir` must be an existing directory");
}

#[test]
fn options_override_configuration() {
    let mut config = app_config(vec![command("x", vec![]), command("y", vec![])]);
    config.max_concurrency = Some(2);
    config.continue_on_error = Some(true);
    let plan = build_plan(
        config,
        PlanOptions { max_concurrency: Some(7), continue_on_error: Some(false), only: Vec::new() },
    )
    .ok()
    .unwrap();
    assert_eq!(plan.max_concurrency, 7);
    assert!(!plan.continue_on_error);
    assert_eq!(plan.commands.len(), 2);
    let plan = build_plan(app_config(vec![command("x", vec![])]), PlanOptions::new()).ok().unwrap();
    assert_eq!(plan.max_concurrency, 4);
}
