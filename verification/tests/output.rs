use orca::output::{sanitize_line, AgentStatus, OutputEvent, OutputState, OutputStream};

#[test]
fn output_state_tracks_agent_lines_and_status() {
    let mut state = OutputState::default();

    assert!(state.apply(OutputEvent::AgentStarted {
        id: "agent-a".to_string(),
        label: "plan".to_string(),
        phase: "planning".to_string(),
        model: Some("default".to_string()),
    }));
    assert!(state.apply(OutputEvent::Line {
        id: "agent-a".to_string(),
        stream: OutputStream::Stdout,
        line: "hello".to_string(),
    }));
    assert!(state.apply(OutputEvent::AgentFinished {
        id: "agent-a".to_string(),
        status: AgentStatus::Succeeded,
    }));

    let pane = state.panes().iter().next().unwrap();
    assert_eq!(pane.status, AgentStatus::Succeeded);
    assert_eq!(pane.lines.back().unwrap(), "hello");
}

#[test]
fn phase_started_clears_old_panes() {
    let mut state = OutputState::default();

    assert!(state.apply(OutputEvent::AgentStarted {
        id: "planner-a".to_string(),
        label: "plan".to_string(),
        phase: "planning".to_string(),
        model: Some("default".to_string()),
    }));
    assert_eq!(state.panes().iter().count(), 1);

    assert!(state.apply(OutputEvent::PhaseStarted { phase: "work".to_string() }));

    assert_eq!(state.panes().iter().count(), 0);
    assert_eq!(state.active_phase(), Some("work"));
}

#[test]
fn output_state_removes_control_characters_without_prefixing_lines() {
    let mut state = OutputState::default();

    assert!(state.apply(OutputEvent::Line {
        id: "agent-a".to_string(),
        stream: OutputStream::Stderr,
        line: "\u{1b}[31mthinking\r".to_string(),
    }));

    let pane = state.panes().iter().next().unwrap();
    assert_eq!(pane.lines.back().unwrap(), "thinking");
}

#[test]
fn output_state_shows_agent_input_glimpse() {
    let mut state = OutputState::default();

    assert!(state.apply(OutputEvent::AgentStarted {
        id: "planner-a".to_string(),
        label: "plan".to_string(),
        phase: "planning".to_string(),
        model: Some("default".to_string()),
    }));
    assert!(state.apply(OutputEvent::AgentInput {
        id: "planner-a".to_string(),
        glimpse: "goal: ship it | context: feedback".to_string(),
    }));

    let pane = state.panes().iter().next().unwrap();
    assert_eq!(pane.lines.back().unwrap(), "Input: goal: ship it | context: feedback");
}

#[test]
fn iteration_summary_clears_agent_panes() {
    let mut state = OutputState::default();

    assert!(state.apply(OutputEvent::AgentStarted {
        id: "agent-a".to_string(),
        label: "implementation".to_string(),
        phase: "work".to_string(),
        model: Some("gpt-5.5".to_string()),
    }));
    assert_eq!(state.panes().iter().count(), 1);

    assert!(state.apply(OutputEvent::IterationSummary {
        iteration: 1,
        summary: "tests failed".to_string(),
        next_step: "retrying because coverage is missing".to_string(),
    }));

    assert_eq!(state.panes().iter().count(), 0);
    assert_eq!(state.iteration_summary().unwrap().iteration, 1);
}

#[test]
fn panes_are_kept_in_id_order() {
    let mut state = OutputState::default();
    for id in ["c", "a", "b", "a"] {
        assert!(state.apply(OutputEvent::Line {
            id: id.to_string(),
            stream: OutputStream::Stdout,
            line: format!("line of {id}"),
        }));
    }
    let ids: Vec<&str> = state.panes().iter().map(|p| p.id.as_str()).collect();
    assert_eq!(ids, vec!["a", "b", "c"]);
    assert_eq!(state.panes()[0].lines.len(), 2);
}

#[test]
fn panes_keep_at_most_four_hundred_lines() {
    let mut state = OutputState::default();
    for n in 0..405 {
        state.apply(OutputEvent::Line {
            id: "a".to_string(),
            stream: OutputStream::Stdout,
            line: format!("{n}"),
        });
    }
    let pane = &state.panes()[0];
    assert_eq!(pane.lines.len(), 400);
    assert_eq!(pane.lines.front().unwrap(), "5");
}

#[test]
fn shutdown_leaves_state_alone() {
    let mut state = OutputState::default();
    assert!(!state.apply(OutputEvent::Shutdown));
    assert!(!state.stop_requested());
    state.request_stop();
    assert!(state.stop_requested());
}

#[test]
fn sanitizing_drops_escapes_and_controls() {
    assert_eq!(sanitize_line("a\tb\u{7}c\u{1b}[1;32mgreen\u{1b}[0m"), "a bcgreen");
    assert_eq!(sanitize_line("\u{1b}xyz"), "xyz");
    assert_eq!(sanitize_line("end\u{1b}[12"), "end");
}

#[test]
fn sanitizing_twice_changes_nothing_and_keeps_clean_text() {
    let once = sanitize_line("\u{1b}[31mred\u{1b}[0m\tdone\u{7}");
    assert_eq!(once, "red done");
    assert_eq!(sanitize_line(&once), once);
    assert_eq!(sanitize_line("plain text"), "plain text");
}
