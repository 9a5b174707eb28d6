use orca::gui::{
    append_agent_node, append_branch_node, add_workflow_connection, add_workflow_node_dependency, add_workflow_node_input, array_field,
    default_workflow_content, escape_toml, input_sources_field, next_branch_condition,
    optional_path, parse_optional_usize, parse_workflow_connections, parse_workflow_nodes,
    remove_workflow_connection, remove_workflow_node, remove_workflow_node_dependency,
    remove_workflow_node_input, replace_array_field, request_from_fields,
    set_workflow_node_dependencies, set_workflow_node_inputs, string_field,
    unique_prefixed_workflow_node_id, unique_workflow_node_id, ControlFields, GuiConfig,
    GuiUiConfig, WorkflowNodeView,
};
use orca::settings::Settings;

fn node(id: &str) -> WorkflowNodeView {
    WorkflowNodeView {
        id: id.to_string(),
        kind: "agent".to_string(),
        evaluation: String::new(),
        contract: "implementation".to_string(),
        instruction: String::new(),
        depends_on: Vec::new(),
        inputs: Vec::new(),
    }
}

#[test]
fn string_field_reads_first_quoted_assignment() {
    let block = "\nidentity = \"q\"\n  id   =   \"alpha\" trailing\nid = \"beta\"\n";
    assert_eq!(string_field(block, "id"), Some("alpha".to_string()));
    assert_eq!(string_field(block, "missing"), None);
    assert_eq!(string_field("id = unquoted\n", "id"), None);
    assert_eq!(string_field("id = \"open", "id"), Some("open".to_string()));
}

#[test]
fn array_field_reads_items_and_skips_empty_ones() {
    assert_eq!(
        array_field("depends_on = [\"a\", \"b\"]\n", "depends_on"),
        vec!["a".to_string(), "b".to_string()]
    );
    assert_eq!(array_field("to = [\"a\",, \"b\"]", "to"), vec!["a".to_string(), "b".to_string()]);
    assert!(array_field("to = []\n", "to").is_empty());
    assert!(array_field("to = [\"\"]\n", "to").is_empty());
    assert!(array_field("from = \"a\"\n", "to").is_empty());
}

#[test]
fn input_sources_are_read_from_the_inputs_list() {
    let block = "\nid = \"b\"\ninputs = [{ source = \"goal\" }, { source = \"agent-1\" }]\n";
    assert_eq!(input_sources_field(block), vec!["goal".to_string(), "agent-1".to_string()]);
    assert!(input_sources_field("\nid = \"b\"\n").is_empty());
}

#[test]
fn default_content_parses_to_one_work_agent() {
    let nodes = parse_workflow_nodes(&default_workflow_content());
    assert_eq!(nodes.len(), 1);
    assert_eq!(nodes[0].id, "work-agent");
    assert_eq!(nodes[0].kind, "agent");
    assert_eq!(nodes[0].evaluation, "");
    assert_eq!(nodes[0].contract, "implementation");
    assert_eq!(nodes[0].instruction, "work.md");
    assert!(nodes[0].depends_on.is_empty());
    assert!(nodes[0].inputs.is_empty());
}

#[test]
fn node_without_fields_takes_defaults() {
    let nodes = parse_workflow_nodes("[[orchestration.nodes]]\nkind = \"branch\"\n");
    assert_eq!(nodes.len(), 1);
    assert_eq!(nodes[0].id, "agent");
    assert_eq!(nodes[0].kind, "branch");
    assert_eq!(nodes[0].contract, "implementation");
}

#[test]
fn connections_need_a_source_and_a_target() {
    let content = "[[orchestration.connections]]\nfrom = \"a\"\nto = [\"b\"]\ncondition = \"true\"\n[[orchestration.connections]]\nfrom = \"c\"\nto = []\n";
    let conns = parse_workflow_connections(content);
    assert_eq!(conns.len(), 1);
    assert_eq!(conns[0].from_id, "a");
    assert_eq!(conns[0].to_ids, vec!["b".to_string()]);
    assert_eq!(conns[0].condition, Some("true".to_string()));
}

#[test]
fn escape_toml_escapes_backslashes_and_quotes() {
    assert_eq!(escape_toml("a\"b\\c"), "a\\\"b\\\\c");
    assert_eq!(escape_toml("plain"), "plain");
}

#[test]
fn replace_array_field_rewrites_the_key_line() {
    let block = "from = \"a\"\nto = [\"b\"]\n";
    let values = vec!["b".to_string(), "c\"d".to_string()];
    assert_eq!(
        replace_array_field(block, "to", &values),
        "from = \"a\"\nto = [\"b\", \"c\\\"d\"]\n"
    );
}

#[test]
fn branch_conditions_alternate() {
    assert_eq!(next_branch_condition("", "a"), "true");
    let one = "[[orchestration.connections]]\nfrom = \"a\"\ncondition = \"true\"\nto = [\"b\"]\n";
    assert_eq!(next_branch_condition(one, "a"), "false");
    assert_eq!(next_branch_condition(one, "other"), "true");
    let both = format!(
        "{one}[[orchestration.connections]]\nfrom = \"a\"\ncondition = \"false\"\nto = [\"c\"]\n"
    );
    assert_eq!(next_branch_condition(&both, "a"), "true");
}

#[test]
fn unique_ids_skip_taken_names() {
    assert_eq!(unique_workflow_node_id(&[]), "agent-1");
    assert_eq!(unique_workflow_node_id(&[node("agent-2")]), "agent-3");
    assert_eq!(unique_workflow_node_id(&[node("x"), node("agent-3")]), "agent-4");
    assert_eq!(unique_prefixed_workflow_node_id(&[node("branch-2")], "branch"), "branch-3");
    assert_eq!(unique_prefixed_workflow_node_id(&[node("a")], "branch"), "branch-2");
}

#[test]
fn optional_fields_trim_and_parse() {
    assert_eq!(optional_path("   "), None);
    assert_eq!(optional_path(" dir/x "), Some("dir/x".to_string()));
    assert_eq!(parse_optional_usize(" "), Ok(None));
    assert_eq!(parse_optional_usize(" 8 "), Ok(Some(8)));
    assert_eq!(parse_optional_usize("+3"), Ok(Some(3)));
    assert_eq!(parse_optional_usize("0"), Ok(Some(0)));
    let message = "Max parallel agents must be a positive integer.".to_string();
    assert_eq!(parse_optional_usize("-1"), Err(message.clone()));
    assert_eq!(parse_optional_usize("abc"), Err(message.clone()));
    assert_eq!(parse_optional_usize("+"), Err(message.clone()));
    assert_eq!(parse_optional_usize("99999999999999999999999"), Err(message));
}

#[test]
fn connections_are_added_and_merged() {
    let first = add_workflow_connection("[orchestration]\n", "a", "b", None);
    assert_eq!(
        first,
        "[orchestration]\n\n[[orchestration.connections]]\nfrom = \"a\"\nto = [\"b\"]\n"
    );
    let second = add_workflow_connection(&first, "a", "c", None);
    assert_eq!(
        second,
        "[orchestration]\n\n[[orchestration.connections]]\nfrom = \"a\"\nto = [\"b\", \"c\"]\n"
    );
    assert_eq!(add_workflow_connection(&second, "a", "c", None), second);
    assert_eq!(
        add_workflow_connection("x", "a", "b", Some("true")),
        "x\n\n[[orchestration.connections]]\nfrom = \"a\"\ncondition = \"true\"\nto = [\"b\"]\n"
    );
}

#[test]
fn connections_are_removed_and_emptied_blocks_dropped() {
    let content =
        "[orchestration]\n\n[[orchestration.connections]]\nfrom = \"a\"\nto = [\"b\", \"c\"]\n";
    let without_b = remove_workflow_connection(content, "a", "b", None);
    assert_eq!(
        without_b,
        "[orchestration]\n\n[[orchestration.connections]]\nfrom = \"a\"\nto = [\"c\"]\n"
    );
    assert_eq!(remove_workflow_connection(&without_b, "a", "c", None), "[orchestration]\n\n");
}

#[test]
fn removing_a_node_drops_its_block() {
    let content = "H\n[[orchestration.nodes]]\nid = \"a\"\n[[orchestration.nodes]]\nid = \"b\"\n";
    assert_eq!(remove_workflow_node(content, "a"), "H\n[[orchestration.nodes]]\nid = \"b\"\n");
}

#[test]
fn unknown_names_leave_the_file_unchanged() {
    let content = "H\n[[orchestration.nodes]]\nid = \"a\"\n[[orchestration.connections]]\nfrom = \"a\"\nto = [\"b\"]\n";
    assert_eq!(remove_workflow_node(content, "zzz"), content);
    assert_eq!(set_workflow_node_inputs(content, "zzz", &["goal".to_string()]), content);
    assert_eq!(set_workflow_node_dependencies(content, "zzz", &["a".to_string()]), content);
    assert_eq!(remove_workflow_connection(content, "q", "b", None), content);
    assert_eq!(remove_workflow_connection(content, "a", "b", Some("true")), content);
}

#[test]
fn node_inputs_are_replaced() {
    let content = "[[orchestration.nodes]]\nid = \"b\"\ninputs = [{ source = \"x\" }]\n";
    assert_eq!(
        set_workflow_node_inputs(content, "b", &["goal".to_string()]),
        "[[orchestration.nodes]]\nid = \"b\"\ninputs = [{ source = \"goal\" }]\n"
    );
    assert_eq!(
        set_workflow_node_inputs(content, "b", &[]),
        "[[orchestration.nodes]]\nid = \"b\"\n"
    );
}

#[test]
fn node_dependencies_are_added_once_and_removed() {
    let content = "[[orchestration.nodes]]\nid = \"b\"\n";
    let added = add_workflow_node_dependency(content, "b", "a");
    assert_eq!(added, "[[orchestration.nodes]]\nid = \"b\"\ndepends_on = [\"a\"]\n");
    assert_eq!(add_workflow_node_dependency(&added, "b", "a"), added);
    assert_eq!(remove_workflow_node_dependency(&added, "b", "a"), content);
    assert_eq!(
        set_workflow_node_dependencies(content, "b", &["q\"r".to_string()]),
        "[[orchestration.nodes]]\nid = \"b\"\ndepends_on = [\"q\\\"r\"]\n"
    );
}

#[test]
fn node_inputs_are_inserted_at_a_slot_and_removed() {
    let content = "[[orchestration.nodes]]\nid = \"b\"\ninputs = [{ source = \"x\" }]\n";
    let added = add_workflow_node_input(content, "b", "goal", Some(0));
    assert_eq!(
        added,
        "[[orchestration.nodes]]\nid = \"b\"\ninputs = [{ source = \"goal\" }, { source = \"x\" }]\n"
    );
    assert_eq!(
        add_workflow_node_input(content, "b", "goal", Some(9)),
        "[[orchestration.nodes]]\nid = \"b\"\ninputs = [{ source = \"x\" }, { source = \"goal\" }]\n"
    );
    assert_eq!(
        remove_workflow_node_input(&added, "b", "x"),
        "[[orchestration.nodes]]\nid = \"b\"\ninputs = [{ source = \"goal\" }]\n"
    );
}

fn fields(goal: &str, max: &str) -> ControlFields {
    ControlFields {
        goal: goal.to_string(),
        config: " orca.toml ".to_string(),
        artifact_dir: String::new(),
        instruction_dir: "prompts".to_string(),
        max_parallel_agents: max.to_string(),
        approve_golden_plan: true,
    }
}

#[test]
fn run_requests_need_a_goal_and_a_number() {
    let err = request_from_fields(&fields("  ", ""), Settings::default()).err();
    assert_eq!(err, Some("Enter a goal before starting a run.".to_string()));
    let err = request_from_fields(&fields("ship", "many"), Settings::default()).err();
    assert_eq!(err, Some("Max parallel agents must be a positive integer.".to_string()));
    let request = request_from_fields(&fields(" ship ", "3"), Settings::default()).ok().unwrap();
    assert_eq!(request.goal, "ship");
    assert_eq!(request.config, Some("orca.toml".to_string()));
    assert_eq!(request.artifact_dir, None);
    assert_eq!(request.instruction_dir, Some("prompts".to_string()));
    assert_eq!(request.max_parallel_agents, Some(3));
    assert!(request.approve_golden_plan);
    assert!(!request.json);
}

#[test]
fn gui_shows_four_panes_by_default() {
    assert_eq!(GuiConfig::default().max_visible_panes, 4);
    assert_eq!(GuiUiConfig::default().gui.max_visible_panes, 4);
}

#[test]
fn new_nodes_are_appended_with_fresh_names() {
    let (text, id) = append_agent_node("  ");
    assert_eq!(id, "agent-1");
    assert_eq!(
        text,
        "[orchestration]\nmax_parallel_agents = 8\napproval_mode = \"auto\"\n\n[[orchestration.nodes]]\nid = \"agent-1\"\noutput_contract = \"implementation\"\ninstruction = \"work.md\"\n\n"
    );
    let base = default_workflow_content();
    let (text, id) = append_agent_node(&base);
    assert_eq!(id, "agent-2");
    assert_eq!(
        text,
        format!("{base}[[orchestration.nodes]]\nid = \"agent-2\"\noutput_contract = \"implementation\"\ninstruction = \"work.md\"\n\n")
    );
    let (text, id) = append_branch_node("x\n");
    assert_eq!(id, "branch-1");
    assert_eq!(
        text,
        "x\n[[orchestration.nodes]]\nid = \"branch-1\"\nkind = \"branch\"\nevaluation = \"input contains signed_off = true\"\noutput_contract = \"branch\"\n\n"
    );
}

#[test]
fn optional_number_fields_read_blank_as_none() {
    assert_eq!(orca::gui::optional_usize_text("  "), None);
    assert_eq!(orca::gui::optional_usize_text(" 12 "), Some(12));
    assert_eq!(orca::gui::optional_usize_text("x"), None);
}
