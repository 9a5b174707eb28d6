use orca::cli::{
    goal_request_from_args, goal_source, normalize_goal_args, output_mode, uses_dashboard,
    validate_config_source, welcome_banner, GoalArgs, GoalSource, OutputMode, RunArgs, TuiConfig,
};
use orca::config::AppConfig;
use orca::settings::Settings;
use orca::tui::{footer_text, header_height, pane_title, plain_lines, status_label, truncate_for_width, waiting_message};
use orca::output::{AgentStatus, OutputEvent, OutputState};

fn strings(v: &[&str]) -> Vec<String> {
    v.iter().map(|s| s.to_string()).collect()
}

#[test]
fn treats_positional_text_as_goal() {
    let args = normalize_goal_args(strings(&["orca", "ship", "feature", "--config", "x.toml"]));
    assert_eq!(args, vec!["orca", "goal", "--goal", "ship feature", "--config", "x.toml"]);
}

#[test]
fn inserts_goal_subcommand_for_goal_flag() {
    let args = normalize_goal_args(strings(&["orca", "--goal", "ship"]));
    assert_eq!(args, vec!["orca", "goal", "--goal", "ship"]);
}

fn visible_banner_width(line: &str) -> usize {
    let mut width = 0;
    let mut chars = line.chars().peekable();
    while let Some(ch) = chars.next() {
        if ch == '\u{1b}' && chars.peek() == Some(&'[') {
            chars.next();
            for sequence_ch in chars.by_ref() {
                if sequence_ch.is_ascii_alphabetic() {
                    break;
                }
            }
            continue;
        }
        width += 1;
    }
    width
}

#[test]
fn welcome_banner_fits_standard_terminal_width() {
    assert!(welcome_banner().lines().all(|line| visible_banner_width(line) <= 80));
    assert!(welcome_banner().contains("ORCA"));
    assert!(welcome_banner().contains("Agents orchestration platform"));
}

#[test]
fn welcome_banner_uses_orca_terminal_theme() {
    assert!(welcome_banner().contains("\x1b[38;2;255;48;0m"));
    assert!(welcome_banner().contains("\x1b[1;38;2;255;205;0mORCA"));
}

#[test]
fn known_commands_and_options_pass_through() {
    assert_eq!(normalize_goal_args(strings(&["orca", "run", "-c", "x"])), strings(&["orca", "run", "-c", "x"]));
    assert_eq!(normalize_goal_args(strings(&["orca", "-V"])), strings(&["orca", "-V"]));
    assert_eq!(normalize_goal_args(strings(&["orca", "--json"])), strings(&["orca", "--json"]));
    assert_eq!(normalize_goal_args(strings(&["orca"])), strings(&["orca"]));
    assert_eq!(
        normalize_goal_args(strings(&["orca", "--goal-file", "g.md"])),
        strings(&["orca", "goal", "--goal-file", "g.md"])
    );
    assert_eq!(normalize_goal_args(strings(&["orca", "fix", "it"])), strings(&["orca", "goal", "--goal", "fix it"]));
}

fn goal_args() -> GoalArgs {
    GoalArgs {
        goal: None,
        goal_file: None,
        config: None,
        settings: None,
        instruction_dir: None,
        artifact_dir: None,
        max_parallel_agents: Some(2),
        approve_golden_plan: true,
        json: false,
        plain: true,
        tui: true,
    }
}

#[test]
fn output_modes_and_dashboard() {
    let mut a = goal_args();
    assert_eq!(output_mode(&a), OutputMode::Plain);
    a.json = true;
    assert_eq!(output_mode(&a), OutputMode::Json);
    assert!(uses_dashboard(OutputMode::Auto, true));
    assert!(!uses_dashboard(OutputMode::Auto, false));
    assert!(!uses_dashboard(OutputMode::Plain, true));
}

#[test]
fn goal_sources_and_requests() {
    assert!(matches!(goal_source(Some("do it".to_string()), None).ok(), Some(GoalSource::Text(_))));
    assert!(matches!(goal_source(None, Some("g.md".to_string())).ok(), Some(GoalSource::File(_))));
    let e = goal_source(Some("  ".to_string()), None).err().unwrap();
    assert_eq!(e.message(), "invalid goal request: provide non-empty --goal or --goal-file");
    assert!(goal_source(None, None).is_err());
    let e = goal_request_from_args(goal_args(), Settings::default(), " \n".to_string()).err().unwrap();
    assert_eq!(e.message(), "invalid goal request: goal must not be empty");
    let r = goal_request_from_args(goal_args(), Settings::default(), "ship".to_string()).ok().unwrap();
    assert_eq!(r.goal, "ship");
    assert_eq!(r.max_parallel_agents, Some(2));
    assert!(r.approve_golden_plan);
}

#[test]
fn continue_on_error_override() {
    let mut a = RunArgs { config: None, settings: None, max_concurrency: None, continue_on_error: false, fail_fast: false, only: Vec::new(), json: false };
    assert_eq!(a.continue_on_error_override(), None);
    a.fail_fast = true;
    assert_eq!(a.continue_on_error_override(), Some(false));
    a.continue_on_error = true;
    assert_eq!(a.continue_on_error_override(), Some(true));
}

#[test]
fn validating_a_configuration_without_commands_checks_the_built_in_workflow() {
    let config = AppConfig { max_concurrency: None, continue_on_error: None, orchestration: None, agents: false, commands: Vec::new() };
    assert!(validate_config_source(config).is_ok());
    assert_eq!(TuiConfig::default().max_visible_panes, 4);
}

#[test]
fn pane_titles_fit_their_width() {
    let mut state = OutputState::default();
    state.apply(OutputEvent::AgentStarted {
        id: "a".to_string(),
        label: "plan".to_string(),
        phase: "p".to_string(),
        model: None,
    });
    let pane = &state.panes()[0];
    assert_eq!(pane_title(pane, 100), " a | plan | model: n/a | running ");
    assert_eq!(pane_title(pane, 8), " a | pl…");
    assert_eq!(truncate_for_width("abc", 0), "");
    assert_eq!(truncate_for_width("abc", 4), "abc");
    assert_eq!(truncate_for_width("abc", 3), "ab…");
    assert_eq!(truncate_for_width("日本語", 4), "日…");
    assert_eq!(status_label(AgentStatus::Succeeded), "done");
}

#[test]
fn plain_rendering_of_events() {
    assert_eq!(plain_lines(&OutputEvent::PhaseStarted { phase: "plan".to_string() }), Some(strings(&["\n== plan phase =="])));
    assert_eq!(
        plain_lines(&OutputEvent::AgentFinished { id: "x".to_string(), status: AgentStatus::Failed }),
        Some(strings(&["== x | Failed =="]))
    );
    assert_eq!(
        plain_lines(&OutputEvent::IterationSummary { iteration: 2, summary: "s\t1".to_string(), next_step: "n".to_string() }),
        Some(strings(&["\n== iteration 2 summary ==", "s 1", "n"]))
    );
    assert_eq!(plain_lines(&OutputEvent::Shutdown), None);
    assert_eq!(waiting_message(Some("work")), "Starting work phase...");
    assert_eq!(waiting_message(None), "Waiting for agents...");
    assert!(footer_text(true).starts_with("Stopping agents"));
    assert_eq!(header_height(16), 9);
    assert_eq!(header_height(15), 3);
}

#[test]
fn welcome_banner_is_printable() {
    println!("{}", welcome_banner());
}
