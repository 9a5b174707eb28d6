//! The built-in workflow used when a configuration has no orchestration section.
use vstd::prelude::*;

use crate::agent::{ApprovalMode, NodeKind};
use crate::config::{
    default_copilot_args_spec, default_copilot_backend, opt_view, BackendProfile,
    InputSelector, OrchestrationConfig, OrchestrationConnection, OrchestrationDefaults,
    OrchestrationNode,
};
use crate::text::{eq_str, owned, replace_char, replace_char_spec};

verus! {

/// The arguments the built-in backend passes an agent with contract `c`: the model for
/// implementation work, tool access for implementation, test and parallel work, and the
/// prompt flag last.
pub open spec fn contract_args(c: Seq<char>) -> Seq<Seq<char>> {
    seq!["--silent"@, "--no-ask-user"@] + (if c == "implementation"@ {
        seq!["--model"@, "gpt-5.5"@]
    } else {
        Seq::empty()
    }) + (if c == "implementation"@ || c == "test"@ || c == "parallel"@ {
        seq!["--allow-all-tools"@]
    } else {
        Seq::empty()
    }) + seq!["-p"@, "{prompt}"@]
}

fn push_owned(v: &mut Vec<String>, s: &str)
    ensures
        final(v).deep_view() == old(v).deep_view().push(s@),
{
    let ghost before = v.deep_view();
    v.push(owned(s));
    assert(v.deep_view() =~= before.push(s@));
}

pub fn default_copilot_args_for_contract(output_contract: &str) -> (r: Vec<String>)
    ensures
        r.deep_view() == contract_args(output_contract@),
{
    let mut args: Vec<String> = Vec::new();
    push_owned(&mut args, "--silent");
    push_owned(&mut args, "--no-ask-user");
    let implementation = eq_str(output_contract, "implementation");
    if implementation {
        push_owned(&mut args, "--model");
        push_owned(&mut args, "gpt-5.5");
    }
    if implementation || eq_str(output_contract, "test") || eq_str(output_contract, "parallel") {
        push_owned(&mut args, "--allow-all-tools");
    }
    push_owned(&mut args, "-p");
    push_owned(&mut args, "{prompt}");
    assert(args.deep_view() =~= contract_args(output_contract@));
    args
}

pub open spec fn selector_sources(v: Seq<InputSelector>) -> Seq<Seq<char>> {
    v.map_values(|i: InputSelector| i.source@)
}

/// A built-in agent node: the `copilot` backend, artifacts in the given directory, the
/// implementation model for implementation work, the workspace writer held by implementation
/// and test work, and the given inputs.
pub open spec fn default_node(
    n: OrchestrationNode,
    id: Seq<char>,
    contract: Seq<char>,
    instruction: Seq<char>,
    dir: Seq<char>,
    inputs: Seq<Seq<char>>,
) -> bool {
    &&& n.id@ == id
    &&& n.kind == NodeKind::Agent
    &&& n.evaluation is None
    &&& n.output_contract@ == contract
    &&& opt_view(n.artifact_dir) == Some(dir)
    &&& opt_view(n.phase_label) == Some(contract)
    &&& opt_view(n.instruction) == Some(instruction)
    &&& opt_view(n.backend) == Some("copilot"@)
    &&& opt_view(n.model) == if contract == "implementation"@ {
        Some("gpt-5.5"@)
    } else {
        None
    }
    &&& n.command is None
    &&& n.args.deep_view() == contract_args(contract)
    &&& n.depends_on@.len() == 0
    &&& n.resources.deep_view() == if contract == "implementation"@ || contract == "test"@ {
        seq!["workspace-writer"@]
    } else {
        Seq::empty()
    }
    &&& n.timeout_secs is None
    &&& n.retries is None
    &&& n.retry_delay_ms is None
    &&& selector_sources(n.inputs@) == inputs
}

/// A built-in agent node with no inputs yet, its artifacts in a directory named after its
/// contract.
pub fn default_agent_node(id: &str, output_contract: &str, instruction: &str) -> (n: OrchestrationNode)
    ensures
        default_node(
            n,
            id@,
            output_contract@,
            instruction@,
            replace_char_spec(output_contract@, '_', '-'),
            Seq::empty(),
        ),
{
    let implementation = eq_str(output_contract, "implementation");
    let mut resources: Vec<String> = Vec::new();
    if implementation || eq_str(output_contract, "test") {
        push_owned(&mut resources, "workspace-writer");
    }
    assert(resources.deep_view() =~= if output_contract@ == "implementation"@ || output_contract@
        == "test"@ {
        seq!["workspace-writer"@]
    } else {
        Seq::<Seq<char>>::empty()
    });
    let inputs: Vec<InputSelector> = Vec::new();
    assert(selector_sources(inputs@) =~= Seq::<Seq<char>>::empty());
    OrchestrationNode {
        id: owned(id),
        kind: NodeKind::Agent,
        evaluation: None,
        output_contract: owned(output_contract),
        artifact_dir: Some(replace_char(output_contract, '_', '-')),
        phase_label: Some(owned(output_contract)),
        instruction: Some(owned(instruction)),
        backend: Some(owned("copilot")),
        model: if implementation {
            Some(owned("gpt-5.5"))
        } else {
            None
        },
        command: None,
        args: default_copilot_args_for_contract(output_contract),
        depends_on: Vec::new(),
        resources,
        timeout_secs: None,
        retries: None,
        retry_delay_ms: None,
        inputs,
    }
}

/// Gives a node its ordered input sources.
pub fn set_inputs(node: &mut OrchestrationNode, sources: Vec<String>)
    ensures
        selector_sources(final(node).inputs@) == sources.deep_view(),
        final(node).id == old(node).id,
        final(node).kind == old(node).kind,
        final(node).evaluation == old(node).evaluation,
        final(node).output_contract == old(node).output_contract,
        final(node).artifact_dir == old(node).artifact_dir,
        final(node).phase_label == old(node).phase_label,
        final(node).instruction == old(node).instruction,
        final(node).backend == old(node).backend,
        final(node).model == old(node).model,
        final(node).command == old(node).command,
        final(node).args == old(node).args,
        final(node).depends_on == old(node).depends_on,
        final(node).resources == old(node).resources,
        final(node).timeout_secs == old(node).timeout_secs,
        final(node).retries == old(node).retries,
        final(node).retry_delay_ms == old(node).retry_delay_ms,
{
    let ghost sv = sources.deep_view();
    let n = sources.len();
    let mut rest = sources;
    let mut inputs: Vec<InputSelector> = Vec::new();
    let mut i: usize = 0;
    while i < n
        invariant
            n == sv.len(),
            i <= n,
            rest.deep_view() == sv.subrange(i as int, n as int),
            rest@.len() == n - i,
            selector_sources(inputs@) =~= sv.take(i as int),
        decreases n - i,
    {
        assert(rest.deep_view()[0] == sv[i as int]);
        assert(rest@[0]@ == rest.deep_view()[0]);
        let ghost r0 = rest@;
        let ghost d0 = rest.deep_view();
        let source = rest.remove(0);
        assert(source@ == sv[i as int]);
        let ghost before = inputs@;
        inputs.push(InputSelector { source });
        assert forall|k: int| 0 <= k < rest@.len() implies rest.deep_view()[k] == sv.subrange(
            i + 1,
            n as int,
        )[k] by {
            assert(rest@[k] == r0[k + 1]);
            assert(d0[k + 1] == r0[k + 1]@);
            assert(d0[k + 1] == sv[i + 1 + k]);
        }
        assert(rest.deep_view() =~= sv.subrange(i + 1, n as int));
        assert(selector_sources(inputs@) =~= selector_sources(before).push(sv[i as int]));
        i = i + 1;
    }
    assert(sv.take(n as int) =~= sv);
    node.inputs = inputs;
}

/// A connection from `from` to the given targets, unconditional.
pub fn connection(from: &str, to: Vec<String>) -> (c: OrchestrationConnection)
    ensures
        c.from@ == from@,
        c.to == to,
        c.condition is None,
{
    OrchestrationConnection { from: owned(from), to, condition: None }
}

pub open spec fn default_connection(c: OrchestrationConnection, from: Seq<char>, to: Seq<Seq<char>>) -> bool {
    c.from@ == from && c.to.deep_view() == to && c.condition is None
}

fn node_with_inputs(id: &str, contract: &str, instruction: &str, dir: &str, inputs: Vec<String>) -> (n:
    OrchestrationNode)
    ensures
        default_node(n, id@, contract@, instruction@, dir@, inputs.deep_view()),
{
    let mut n = default_agent_node(id, contract, instruction);
    n.artifact_dir = Some(owned(dir));
    set_inputs(&mut n, inputs);
    n
}
/// The built-in workflow: feature generation, four planners each with a critic, an
/// orchestrator writing the golden plan, four test planners merged into a golden test plan,
/// KPI, test, implementation and coverage agents, and a feedback agent, on the `copilot`
/// backend with at most eight agents at a time and ten iterations. Each node keeps its
/// artifacts in the directory of its phase (`feature-generation`, `planning`, `critique`,
/// `golden-plan`, `kpi`, `kpi-measurement`, `test-planning`, `golden-test-plan`, `tests`,
/// `work`, `feature-coverage`, `feedback`).
pub fn default_orchestration_config() -> (c: OrchestrationConfig)
    ensures
        c.instruction_dir is None,
        c.artifact_dir is None,
        c.max_parallel_agents == Some(8usize),
        c.min_successful_planners == Some(2usize),
        c.min_successful_critics == Some(1usize),
        c.max_iterations == Some(10usize),
        c.approval_mode == Some(ApprovalMode::Auto),
        c.defaults matches Some(d) && opt_view(d.backend) == Some("copilot"@) && opt_view(d.model)
            == Some("default"@) && d.timeout_secs == Some(900u64) && d.retries == Some(0u32)
            && d.retry_delay_ms is None,
        c.backends@.len() == 1,
        c.backends@[0].id@ == "copilot"@,
        c.backends@[0].program@ == "copilot"@,
        c.backends@[0].args.deep_view() == default_copilot_args_spec(),
        c.nodes@.len() == 21,
        c.connections@.len() == 19,
        default_node(c.nodes@[0], "feature-generator"@, "feature"@, "feature_generation.md"@, "feature-generation"@, seq!["feedback"@]),
        default_node(c.nodes@[1], "planner-a"@, "plan"@, "planning.md"@, "planning"@, seq!["feedback"@, "feature-generator"@]),
        default_node(c.nodes@[2], "planner-b"@, "plan"@, "planning.md"@, "planning"@, seq!["feedback"@, "feature-generator"@]),
        default_node(c.nodes@[3], "planner-c"@, "plan"@, "planning.md"@, "planning"@, seq!["feedback"@, "feature-generator"@]),
        default_node(c.nodes@[4], "planner-d"@, "plan"@, "planning.md"@, "planning"@, seq!["feedback"@, "feature-generator"@]),
        default_node(c.nodes@[5], "critic-a"@, "critique"@, "critique.md"@, "critique"@, seq!["planner-a"@]),
        default_node(c.nodes@[6], "critic-b"@, "critique"@, "critique.md"@, "critique"@, seq!["planner-b"@]),
        default_node(c.nodes@[7], "critic-c"@, "critique"@, "critique.md"@, "critique"@, seq!["planner-c"@]),
        default_node(c.nodes@[8], "critic-d"@, "critique"@, "critique.md"@, "critique"@, seq!["planner-d"@]),
        default_node(c.nodes@[9], "orchestrator"@, "golden_plan"@, "orchestration.md"@, "golden-plan"@, seq!["feedback"@, "planner-a"@, "planner-b"@, "planner-c"@, "planner-d"@, "critic-a"@, "critic-b"@, "critic-c"@, "critic-d"@]),
        default_node(c.nodes@[10], "kpi-agent"@, "kpi"@, "kpi_generation.md"@, "kpi"@, seq!["orchestrator"@]),
        default_node(c.nodes@[11], "kpi-measure-agent"@, "kpi"@, "kpi_measurement.md"@, "kpi-measurement"@, seq!["orchestrator"@, "work-agent"@, "kpi-agent"@]),
        default_node(c.nodes@[12], "test-planner-a"@, "test_plan"@, "test_planning.md"@, "test-planning"@, seq!["orchestrator"@]),
        default_node(c.nodes@[13], "test-planner-b"@, "test_plan"@, "test_planning.md"@, "test-planning"@, seq!["orchestrator"@]),
        default_node(c.nodes@[14], "test-planner-c"@, "test_plan"@, "test_planning.md"@, "test-planning"@, seq!["orchestrator"@]),
        default_node(c.nodes@[15], "test-planner-d"@, "test_plan"@, "test_planning.md"@, "test-planning"@, seq!["orchestrator"@]),
        default_node(c.nodes@[16], "golden-test-plan"@, "test_plan"@, "orchestration.md"@, "golden-test-plan"@, seq!["orchestrator"@, "test-planner-a"@, "test-planner-b"@, "test-planner-c"@, "test-planner-d"@]),
        default_node(c.nodes@[17], "test-agent"@, "test"@, "test_generation.md"@, "tests"@, seq!["golden-test-plan"@]),
        default_node(c.nodes@[18], "work-agent"@, "implementation"@, "work.md"@, "work"@, seq!["orchestrator"@]),
        default_node(c.nodes@[19], "coverage-agent"@, "coverage"@, "feature_coverage.md"@, "feature-coverage"@, seq!["orchestrator"@, "work-agent"@, "test-agent"@]),
        default_node(c.nodes@[20], "feedback-agent"@, "feedback"@, "feedback.md"@, "feedback"@, seq!["gate-feedback"@]),
        default_connection(c.connections@[0], "feedback"@, seq!["feature-generator"@, "planner-a"@, "planner-b"@, "planner-c"@, "planner-d"@]),
        default_connection(c.connections@[1], "feature-generator"@, seq!["planner-a"@, "planner-b"@, "planner-c"@, "planner-d"@]),
        default_connection(c.connections@[2], "planner-a"@, seq!["critic-a"@, "orchestrator"@]),
        default_connection(c.connections@[3], "planner-b"@, seq!["critic-b"@, "orchestrator"@]),
        default_connection(c.connections@[4], "planner-c"@, seq!["critic-c"@, "orchestrator"@]),
        default_connection(c.connections@[5], "planner-d"@, seq!["critic-d"@, "orchestrator"@]),
        default_connection(c.connections@[6], "critic-a"@, seq!["orchestrator"@]),
        default_connection(c.connections@[7], "critic-b"@, seq!["orchestrator"@]),
        default_connection(c.connections@[8], "critic-c"@, seq!["orchestrator"@]),
        default_connection(c.connections@[9], "critic-d"@, seq!["orchestrator"@]),
        default_connection(c.connections@[10], "orchestrator"@, seq!["test-planner-a"@, "test-planner-b"@, "test-planner-c"@, "test-planner-d"@, "kpi-agent"@, "work-agent"@]),
        default_connection(c.connections@[11], "test-planner-a"@, seq!["golden-test-plan"@]),
        default_connection(c.connections@[12], "test-planner-b"@, seq!["golden-test-plan"@]),
        default_connection(c.connections@[13], "test-planner-c"@, seq!["golden-test-plan"@]),
        default_connection(c.connections@[14], "test-planner-d"@, seq!["golden-test-plan"@]),
        default_connection(c.connections@[15], "golden-test-plan"@, seq!["test-agent"@]),
        default_connection(c.connections@[16], "work-agent"@, seq!["kpi-measure-agent"@, "coverage-agent"@]),
        default_connection(c.connections@[17], "kpi-agent"@, seq!["kpi-measure-agent"@]),
        default_connection(c.connections@[18], "test-agent"@, seq!["coverage-agent"@]),
{
    let mut nodes: Vec<OrchestrationNode> = Vec::new();
    let mut s: Vec<String> = Vec::new();
    push_owned(&mut s, "feedback");
    assert(s.deep_view() =~= seq!["feedback"@]);
    nodes.push(node_with_inputs("feature-generator", "feature", "feature_generation.md", "feature-generation", s));
    let mut s: Vec<String> = Vec::new();
    push_owned(&mut s, "feedback");
    push_owned(&mut s, "feature-generator");
    assert(s.deep_view() =~= seq!["feedback"@, "feature-generator"@]);
    nodes.push(node_with_inputs("planner-a", "plan", "planning.md", "planning", s));
    let mut s: Vec<String> = Vec::new();
    push_owned(&mut s, "feedback");
    push_owned(&mut s, "feature-generator");
    assert(s.deep_view() =~= seq!["feedback"@, "feature-generator"@]);
    nodes.push(node_with_inputs("planner-b", "plan", "planning.md", "planning", s));
    let mut s: Vec<String> = Vec::new();
    push_owned(&mut s, "feedback");
    push_owned(&mut s, "feature-generator");
    assert(s.deep_view() =~= seq!["feedback"@, "feature-generator"@]);
    nodes.push(node_with_inputs("planner-c", "plan", "planning.md", "planning", s));
    let mut s: Vec<String> = Vec::new();
    push_owned(&mut s, "feedback");
    push_owned(&mut s, "feature-generator");
    assert(s.deep_view() =~= seq!["feedback"@, "feature-generator"@]);
    nodes.push(node_with_inputs("planner-d", "plan", "planning.md", "planning", s));
    let mut s: Vec<String> = Vec::new();
    push_owned(&mut s, "planner-a");
    assert(s.deep_view() =~= seq!["planner-a"@]);
    nodes.push(node_with_inputs("critic-a", "critique", "critique.md", "critique", s));
    let mut s: Vec<String> = Vec::new();
    push_owned(&mut s, "planner-b");
    assert(s.deep_view() =~= seq!["planner-b"@]);
    nodes.push(node_with_inputs("critic-b", "critique", "critique.md", "critique", s));
    let mut s: Vec<String> = Vec::new();
    push_owned(&mut s, "planner-c");
    assert(s.deep_view() =~= seq!["planner-c"@]);
    nodes.push(node_with_inputs("critic-c", "critique", "critique.md", "critique", s));
    let mut s: Vec<String> = Vec::new();
    push_owned(&mut s, "planner-d");
    assert(s.deep_view() =~= seq!["planner-d"@]);
    nodes.push(node_with_inputs("critic-d", "critique", "critique.md", "critique", s));
    let mut s: Vec<String> = Vec::new();
    push_owned(&mut s, "feedback");
    push_owned(&mut s, "planner-a");
    push_owned(&mut s, "planner-b");
    push_owned(&mut s, "planner-c");
    push_owned(&mut s, "planner-d");
    push_owned(&mut s, "critic-a");
    push_owned(&mut s, "critic-b");
    push_owned(&mut s, "critic-c");
    push_owned(&mut s, "critic-d");
    assert(s.deep_view() =~= seq!["feedback"@, "planner-a"@, "planner-b"@, "planner-c"@, "planner-d"@, "critic-a"@, "critic-b"@, "critic-c"@, "critic-d"@]);
    nodes.push(node_with_inputs("orchestrator", "golden_plan", "orchestration.md", "golden-plan", s));
    let mut s: Vec<String> = Vec::new();
    push_owned(&mut s, "orchestrator");
    assert(s.deep_view() =~= seq!["orchestrator"@]);
    nodes.push(node_with_inputs("kpi-agent", "kpi", "kpi_generation.md", "kpi", s));
    let mut s: Vec<String> = Vec::new();
    push_owned(&mut s, "orchestrator");
    push_owned(&mut s, "work-agent");
    push_owned(&mut s, "kpi-agent");
    assert(s.deep_view() =~= seq!["orchestrator"@, "work-agent"@, "kpi-agent"@]);
    nodes.push(node_with_inputs("kpi-measure-agent", "kpi", "kpi_measurement.md", "kpi-measurement", s));
    let mut s: Vec<String> = Vec::new();
    push_owned(&mut s, "orchestrator");
    assert(s.deep_view() =~= seq!["orchestrator"@]);
    nodes.push(node_with_inputs("test-planner-a", "test_plan", "test_planning.md", "test-planning", s));
    let mut s: Vec<String> = Vec::new();
    push_owned(&mut s, "orchestrator");
    assert(s.deep_view() =~= seq!["orchestrator"@]);
    nodes.push(node_with_inputs("test-planner-b", "test_plan", "test_planning.md", "test-planning", s));
    let mut s: Vec<String> = Vec::new();
    push_owned(&mut s, "orchestrator");
    assert(s.deep_view() =~= seq!["orchestrator"@]);
    nodes.push(node_with_inputs("test-planner-c", "test_plan", "test_planning.md", "test-planning", s));
    let mut s: Vec<String> = Vec::new();
    push_owned(&mut s, "orchestrator");
    assert(s.deep_view() =~= seq!["orchestrator"@]);
    nodes.push(node_with_inputs("test-planner-d", "test_plan", "test_planning.md", "test-planning", s));
    let mut s: Vec<String> = Vec::new();
    push_owned(&mut s, "orchestrator");
    push_owned(&mut s, "test-planner-a");
    push_owned(&mut s, "test-planner-b");
    push_owned(&mut s, "test-planner-c");
    push_owned(&mut s, "test-planner-d");
    assert(s.deep_view() =~= seq!["orchestrator"@, "test-planner-a"@, "test-planner-b"@, "test-planner-c"@, "test-planner-d"@]);
    nodes.push(node_with_inputs("golden-test-plan", "test_plan", "orchestration.md", "golden-test-plan", s));
    let mut s: Vec<String> = Vec::new();
    push_owned(&mut s, "golden-test-plan");
    assert(s.deep_view() =~= seq!["golden-test-plan"@]);
    nodes.push(node_with_inputs("test-agent", "test", "test_generation.md", "tests", s));
    let mut s: Vec<String> = Vec::new();
    push_owned(&mut s, "orchestrator");
    assert(s.deep_view() =~= seq!["orchestrator"@]);
    nodes.push(node_with_inputs("work-agent", "implementation", "work.md", "work", s));
    let mut s: Vec<String> = Vec::new();
    push_owned(&mut s, "orchestrator");
    push_owned(&mut s, "work-agent");
    push_owned(&mut s, "test-agent");
    assert(s.deep_view() =~= seq!["orchestrator"@, "work-agent"@, "test-agent"@]);
    nodes.push(node_with_inputs("coverage-agent", "coverage", "feature_coverage.md", "feature-coverage", s));
    let mut s: Vec<String> = Vec::new();
    push_owned(&mut s, "gate-feedback");
    assert(s.deep_view() =~= seq!["gate-feedback"@]);
    nodes.push(node_with_inputs("feedback-agent", "feedback", "feedback.md", "feedback", s));
    let mut connections: Vec<OrchestrationConnection> = Vec::new();
    let mut t: Vec<String> = Vec::new();
    push_owned(&mut t, "feature-generator");
    push_owned(&mut t, "planner-a");
    push_owned(&mut t, "planner-b");
    push_owned(&mut t, "planner-c");
    push_owned(&mut t, "planner-d");
    assert(t.deep_view() =~= seq!["feature-generator"@, "planner-a"@, "planner-b"@, "planner-c"@, "planner-d"@]);
    connections.push(connection("feedback", t));
    let mut t: Vec<String> = Vec::new();
    push_owned(&mut t, "planner-a");
    push_owned(&mut t, "planner-b");
    push_owned(&mut t, "planner-c");
    push_owned(&mut t, "planner-d");
    assert(t.deep_view() =~= seq!["planner-a"@, "planner-b"@, "planner-c"@, "planner-d"@]);
    connections.push(connection("feature-generator", t));
    let mut t: Vec<String> = Vec::new();
    push_owned(&mut t, "critic-a");
    push_owned(&mut t, "orchestrator");
    assert(t.deep_view() =~= seq!["critic-a"@, "orchestrator"@]);
    connections.push(connection("planner-a", t));
    let mut t: Vec<String> = Vec::new();
    push_owned(&mut t, "critic-b");
    push_owned(&mut t, "orchestrator");
    assert(t.deep_view() =~= seq!["critic-b"@, "orchestrator"@]);
    connections.push(connection("planner-b", t));
    let mut t: Vec<String> = Vec::new();
    push_owned(&mut t, "critic-c");
    push_owned(&mut t, "orchestrator");
    assert(t.deep_view() =~= seq!["critic-c"@, "orchestrator"@]);
    connections.push(connection("planner-c", t));
    let mut t: Vec<String> = Vec::new();
    push_owned(&mut t, "critic-d");
    push_owned(&mut t, "orchestrator");
    assert(t.deep_view() =~= seq!["critic-d"@, "orchestrator"@]);
    connections.push(connection("planner-d", t));
    let mut t: Vec<String> = Vec::new();
    push_owned(&mut t, "orchestrator");
    assert(t.deep_view() =~= seq!["orchestrator"@]);
    connections.push(connection("critic-a", t));
    let mut t: Vec<String> = Vec::new();
    push_owned(&mut t, "orchestrator");
    assert(t.deep_view() =~= seq!["orchestrator"@]);
    connections.push(connection("critic-b", t));
    let mut t: Vec<String> = Vec::new();
    push_owned(&mut t, "orchestrator");
    assert(t.deep_view() =~= seq!["orchestrator"@]);
    connections.push(connection("critic-c", t));
    let mut t: Vec<String> = Vec::new();
    push_owned(&mut t, "orchestrator");
    assert(t.deep_view() =~= seq!["orchestrator"@]);
    connections.push(connection("critic-d", t));
    let mut t: Vec<String> = Vec::new();
    push_owned(&mut t, "test-planner-a");
    push_owned(&mut t, "test-planner-b");
    push_owned(&mut t, "test-planner-c");
    push_owned(&mut t, "test-planner-d");
    push_owned(&mut t, "kpi-agent");
    push_owned(&mut t, "work-agent");
    assert(t.deep_view() =~= seq!["test-planner-a"@, "test-planner-b"@, "test-planner-c"@, "test-planner-d"@, "kpi-agent"@, "work-agent"@]);
    connections.push(connection("orchestrator", t));
    let mut t: Vec<String> = Vec::new();
    push_owned(&mut t, "golden-test-plan");
    assert(t.deep_view() =~= seq!["golden-test-plan"@]);
    connections.push(connection("test-planner-a", t));
    let mut t: Vec<String> = Vec::new();
    push_owned(&mut t, "golden-test-plan");
    assert(t.deep_view() =~= seq!["golden-test-plan"@]);
    connections.push(connection("test-planner-b", t));
    let mut t: Vec<String> = Vec::new();
    push_owned(&mut t, "golden-test-plan");
    assert(t.deep_view() =~= seq!["golden-test-plan"@]);
    connections.push(connection("test-planner-c", t));
    let mut t: Vec<String> = Vec::new();
    push_owned(&mut t, "golden-test-plan");
    assert(t.deep_view() =~= seq!["golden-test-plan"@]);
    connections.push(connection("test-planner-d", t));
    let mut t: Vec<String> = Vec::new();
    push_owned(&mut t, "test-agent");
    assert(t.deep_view() =~= seq!["test-agent"@]);
    connections.push(connection("golden-test-plan", t));
    let mut t: Vec<String> = Vec::new();
    push_owned(&mut t, "kpi-measure-agent");
    push_owned(&mut t, "coverage-agent");
    assert(t.deep_view() =~= seq!["kpi-measure-agent"@, "coverage-agent"@]);
    connections.push(connection("work-agent", t));
    let mut t: Vec<String> = Vec::new();
    push_owned(&mut t, "kpi-measure-agent");
    assert(t.deep_view() =~= seq!["kpi-measure-agent"@]);
    connections.push(connection("kpi-agent", t));
    let mut t: Vec<String> = Vec::new();
    push_owned(&mut t, "coverage-agent");
    assert(t.deep_view() =~= seq!["coverage-agent"@]);
    connections.push(connection("test-agent", t));
    let mut backends: Vec<BackendProfile> = Vec::new();
    backends.push(default_copilot_backend());
    OrchestrationConfig {
        instruction_dir: None,
        artifact_dir: None,
        max_parallel_agents: Some(8),
        min_successful_planners: Some(2),
        min_successful_critics: Some(1),
        max_iterations: Some(10),
        approval_mode: Some(ApprovalMode::Auto),
        defaults: Some(
            OrchestrationDefaults {
                backend: Some(owned("copilot")),
                model: Some(owned("default")),
                timeout_secs: Some(900),
                retries: Some(0),
                retry_delay_ms: None,
            },
        ),
        backends,
        nodes,
        connections,
    }
}

} // verus!
