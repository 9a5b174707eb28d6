use orca::agent::{AgentOutput, NodeKind};
use orca::completion::{extract_json_object, parse_pass_fail, to_ascii_uppercase, CompletionReport};

fn output(id: &str, output_contract: &str, content: &str) -> AgentOutput {
    AgentOutput {
        agent_id: id.to_string(),
        kind: NodeKind::Agent,
        output_contract: output_contract.to_string(),
        phase_label: None,
        artifact_dir: None,
        content: content.to_string(),
        artifact_path: String::new(),
    }
}

#[test]
fn requires_all_three_completion_gates() {
    let outputs = vec![
        output("kpi", "kpi", r#"{"passed":true}"#),
        output("tests", "test", r#"{"passed":true}"#),
        output("coverage", "coverage", r#"{"signed_off":true}"#),
    ];

    let report = CompletionReport::evaluate(&outputs);

    assert!(report.complete);
}

#[test]
fn kpi_gate_is_optional_when_workflow_has_no_kpi_outputs() {
    let outputs = vec![
        output("tests", "test", r#"{"passed":true}"#),
        output("coverage", "coverage", r#"{"signed_off":true}"#),
    ];

    let report = CompletionReport::evaluate(&outputs);

    assert!(report.kpis_passed);
    assert!(report.complete);
}

#[test]
fn collects_feedback_from_failed_gate() {
    let outputs = vec![
        output("kpi", "kpi", r#"{"passed":true}"#),
        output("tests", "test", r#"{"passed":false,"feedback":"add regression tests"}"#),
        output("coverage", "coverage", r#"{"signed_off":true}"#),
    ];

    let report = CompletionReport::evaluate(&outputs);

    assert!(!report.complete);
    assert!(report.feedback.contains("add regression tests"));
}

#[test]
fn coverage_signed_off_false_in_wrapped_json_keeps_goal_incomplete() {
    let outputs = vec![
        output("kpi", "kpi", r#"{"passed":true}"#),
        output("tests", "test", r#"{"passed":true}"#),
        output(
            "coverage",
            "coverage",
            "Feature coverage result:\n```json\n{\"signed_off\":false,\"missing_features\":[\"login\"],\"feedback\":\"missing login\"}\n```",
        ),
    ];

    let report = CompletionReport::evaluate(&outputs);

    assert!(!report.complete);
    assert!(!report.feature_coverage_signed_off);
    assert!(report.feedback.contains("missing login"));
    assert!(report.feedback.contains("missing features: login"));
}

#[test]
fn signed_off_false_text_fallback_is_not_success() {
    let outputs = vec![
        output("kpi", "kpi", r#"{"passed":true}"#),
        output("tests", "test", r#"{"passed":true}"#),
        output("coverage", "coverage", "signed_off: false\nmissing feature coverage"),
    ];

    let report = CompletionReport::evaluate(&outputs);

    assert!(!report.complete);
    assert!(!report.feature_coverage_signed_off);
    assert!(report.feedback.contains("missing feature coverage"));
}

#[test]
fn failed_kpi_contract_keeps_goal_incomplete() {
    let outputs = vec![
        output("kpi", "kpi", r#"{"passed":true}"#),
        output("kpi-measure", "kpi", r#"{"passed":false,"feedback":"latency target missed"}"#),
        output("tests", "test", r#"{"passed":true}"#),
        output("coverage", "coverage", r#"{"signed_off":true}"#),
    ];

    let report = CompletionReport::evaluate(&outputs);

    assert!(!report.complete);
    assert!(!report.kpis_passed);
    assert!(report.feedback.contains("latency target missed"));
}

#[test]
fn kpi_measurement_verdicts_decide_the_kpi_gate_over_generated_targets() {
    let outputs = vec![
        output("kpi-agent", "kpi", "KPI targets: p95 latency under 200 ms"),
        output("kpi-measure-agent", "kpi", r#"{"passed":true}"#),
        output("test-agent", "test", r#"{"passed":true}"#),
        output("coverage-agent", "coverage", r#"{"signed_off":true}"#),
    ];

    let report = CompletionReport::evaluate(&outputs);

    assert!(report.kpis_passed);
    assert!(report.tests_passed);
    assert!(report.feature_coverage_signed_off);
    assert!(report.complete);
}

#[test]
fn failing_kpi_measurement_fails_the_gate_beside_generated_targets() {
    let outputs = vec![
        output("kpi-agent", "kpi", "KPI targets: p95 latency under 200 ms"),
        output("kpi-measure-agent", "kpi", r#"{"passed":false,"feedback":"p95 was 350 ms"}"#),
        output("test-agent", "test", r#"{"passed":true}"#),
        output("coverage-agent", "coverage", r#"{"signed_off":true}"#),
    ];

    let report = CompletionReport::evaluate(&outputs);

    assert!(!report.kpis_passed);
    assert!(!report.complete);
    assert!(report.feedback.contains("p95 was 350 ms"));
}

#[test]
fn missing_test_agents_leave_goal_incomplete() {
    let outputs = vec![output("coverage", "coverage", r#"{"signed_off":true}"#)];
    let report = CompletionReport::evaluate(&outputs);
    assert!(!report.tests_passed);
    assert!(report.feature_coverage_signed_off);
    assert!(!report.complete);
    assert_eq!(report.feedback, "");
}

#[test]
fn feedback_lines_join_failed_gates_in_gate_order() {
    let outputs = vec![
        output("cov", "coverage", r#"{"signed_off":false,"feedback":"cover more"}"#),
        output("t", "test", "FAILED: two cases"),
        output("k", "kpi", r#"{"passed":true,"feedback":"fast enough"}"#),
    ];
    let report = CompletionReport::evaluate(&outputs);
    assert_eq!(report.feedback, "fast enough\nFAILED: two cases\ncover more");
}

#[test]
fn structured_verdict_falls_back_between_flags() {
    let coverage = parse_pass_fail(r#"{"passed":true}"#, "signed_off");
    assert!(coverage.passed);
    let test = parse_pass_fail(r#"{"signed_off":true,"passed":false}"#, "passed");
    assert!(!test.passed);
    let neither = parse_pass_fail(r#"{"feedback":"nothing decided"}"#, "passed");
    assert!(!neither.passed);
    assert_eq!(neither.feedback, "nothing decided");
}

#[test]
fn structured_verdict_accepts_array_form() {
    let g = parse_pass_fail(r#"[true, null, "ok", ["a", "b"]]"#, "passed");
    assert!(g.passed);
    assert_eq!(g.feedback, "ok\nmissing features: a, b");
}

#[test]
fn mistyped_fields_fall_back_to_wording() {
    let g = parse_pass_fail(r#"{"passed":"yes"} PASS"#, "passed");
    assert!(g.passed);
    assert_eq!(g.feedback, "");
    let f = parse_pass_fail("  it did not pass: FAIL  ", "passed");
    assert!(!f.passed);
    assert_eq!(f.feedback, "it did not pass: FAIL");
}

#[test]
fn extracts_first_balanced_object() {
    assert_eq!(
        extract_json_object(r#"noise {"a":"}{","b":{"c":1}} tail }"#),
        Some(r#"{"a":"}{","b":{"c":1}}"#.to_string())
    );
    assert_eq!(extract_json_object("no braces here"), None);
    assert_eq!(extract_json_object("{ unbalanced"), None);
    assert_eq!(extract_json_object(r#"{"s":"a\"}"}"#), Some(r#"{"s":"a\"}"}"#.to_string()));
}

#[test]
fn uppercases_ascii_only() {
    assert_eq!(to_ascii_uppercase("signed_off: trüe"), "SIGNED_OFF: TRüE");
}

#[test]
fn a_repeated_verdict_field_falls_back_to_the_wording() {
    let verdict = parse_pass_fail(r#"{"signed_off":false,"signed_off":true}"#, "signed_off");
    assert!(!verdict.passed);
}

#[test]
fn unread_fields_with_huge_numbers_keep_the_structured_verdict() {
    let verdict = parse_pass_fail(r#"{"passed":false,"latency_ms":1e400,"feedback":"slow"}"#, "passed");
    assert!(!verdict.passed);
    assert_eq!(verdict.feedback, "slow");
}

#[test]
fn escaped_field_names_count_as_the_field() {
    let verdict = parse_pass_fail(r#"{"pa\u0073sed":false,"feedback":"escaped"}"#, "passed");
    assert!(!verdict.passed);
    assert_eq!(verdict.feedback, "escaped");
}
