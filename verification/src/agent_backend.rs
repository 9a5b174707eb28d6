//! How an agent node becomes a command, and how the command's result becomes the agent's
//! output. The command itself is run by the caller.
use vstd::prelude::*;

use crate::agent::{AgentInput, AgentOutput, AgentSpec, NodeKind};
use crate::config::{clone_opt, clone_strings, opt_view};
use crate::defaults::contract_args;
use crate::errors::AppError;
use crate::model::{CommandOutcome, CommandResult, CommandSpec};
use crate::text::{cat, eq_str, is_blank, owned, replace, replace_spec, spec_is_blank, spec_trim, trim};

verus! {

pub open spec fn prompt_spec(input: AgentInput, instruction: Seq<char>) -> Seq<char> {
    instruction + "\n\nGoal:\n"@ + input.goal@ + "\n\nContext:\n"@ + input.context@
}

/// The prompt: the instructions, then the goal and the context under headings.
pub fn build_prompt(input: &AgentInput, instruction: &str) -> (r: String)
    ensures
        r@ == prompt_spec(*input, instruction@),
{
    let a = cat(instruction, "\n\nGoal:\n");
    let b = cat(a.as_str(), input.goal.as_str());
    let c = cat(b.as_str(), "\n\nContext:\n");
    cat(c.as_str(), input.context.as_str())
}

pub open spec fn rendered_arg(template: Seq<char>, input: AgentInput, instruction: Seq<char>) -> Seq<char> {
    replace_spec(
        replace_spec(
            replace_spec(replace_spec(template, "{goal}"@, input.goal@), "{context}"@, input.context@),
            "{instructions}"@,
            instruction,
        ),
        "{prompt}"@,
        prompt_spec(input, instruction),
    )
}

/// An argument template with `{goal}`, `{context}`, `{instructions}` and `{prompt}` filled
/// in, in that order.
pub fn render_arg(template: &str, input: &AgentInput, instruction: &str) -> (r: String)
    ensures
        r@ == rendered_arg(template@, *input, instruction@),
{
    proof {
        reveal_strlit("{goal}");
        reveal_strlit("{context}");
        reveal_strlit("{instructions}");
        reveal_strlit("{prompt}");
    }
    let prompt = build_prompt(input, instruction);
    let a = replace(template, "{goal}", input.goal.as_str());
    let b = replace(a.as_str(), "{context}", input.context.as_str());
    let c = replace(b.as_str(), "{instructions}", instruction);
    replace(c.as_str(), "{prompt}", prompt.as_str())
}

/// The built-in backend's arguments for a contract, with the prompt last.
pub fn default_copilot_args(output_contract: &str, input: &AgentInput, instruction: &str) -> (r: Vec<
    String,
>)
    ensures
        r.deep_view() == contract_args(output_contract@).drop_last().push(
            prompt_spec(*input, instruction@),
        ),
{
    let mut args = crate::defaults::default_copilot_args_for_contract(output_contract);
    let ghost a0 = args.deep_view();
    args.pop();
    args.push(build_prompt(input, instruction));
    assert(args.deep_view() =~= a0.drop_last().push(prompt_spec(*input, instruction@)));
    args
}

/// The model the built-in backend is asked for: the value after the first `--model`, else
/// `default`; other commands name none.
pub open spec fn model_of_args(command: Seq<char>, args: Seq<Seq<char>>) -> Option<Seq<char>> {
    if command != "copilot"@ {
        None
    } else {
        match first_model_flag(args, 0) {
            Some(m) => Some(m),
            None => Some("default"@),
        }
    }
}

pub open spec fn first_model_flag(args: Seq<Seq<char>>, i: int) -> Option<Seq<char>>
    decreases args.len() - i,
{
    if i + 1 >= args.len() || i < 0 {
        None
    } else if args[i] == "--model"@ {
        Some(args[i + 1])
    } else {
        first_model_flag(args, i + 1)
    }
}

pub fn model_from_args(command: &str, args: &Vec<String>) -> (r: Option<String>)
    ensures
        opt_view(r) == model_of_args(command@, args.deep_view()),
{
    if !eq_str(command, "copilot") {
        return None;
    }
    let ghost a = args.deep_view();
    let n = args.len();
    let mut i: usize = 0;
    while i < n && i + 1 < n
        invariant
            command@ == "copilot"@,
            n == args@.len(),
            a == args.deep_view(),
            i <= n,
            first_model_flag(a, 0) == first_model_flag(a, i as int),
        decreases args.len() - i,
    {
        if eq_str(args[i].as_str(), "--model") {
            return Some(args[i + 1].clone());
        }
        i = i + 1;
    }
    Some(owned("default"))
}

/// The name `Debug` gives a node kind.
pub open spec fn kind_name(k: NodeKind) -> Seq<char> {
    match k {
        NodeKind::Agent => "Agent"@,
        NodeKind::Branch => "Branch"@,
        NodeKind::Gate => "Gate"@,
        NodeKind::Aggregate => "Aggregate"@,
        NodeKind::Approval => "Approval"@,
        NodeKind::Feedback => "Feedback"@,
        NodeKind::LoopFeedback => "LoopFeedback"@,
    }
}

fn kind_label(k: NodeKind) -> (r: String)
    ensures
        r@ == kind_name(k),
{
    match k {
        NodeKind::Agent => owned("Agent"),
        NodeKind::Branch => owned("Branch"),
        NodeKind::Gate => owned("Gate"),
        NodeKind::Aggregate => owned("Aggregate"),
        NodeKind::Approval => owned("Approval"),
        NodeKind::Feedback => owned("Feedback"),
        NodeKind::LoopFeedback => owned("LoopFeedback"),
    }
}

/// The environment an agent command gets, in the order of the variable names.
pub open spec fn agent_env(spec: AgentSpec, input: AgentInput, instruction: Seq<char>) -> Seq<
    (Seq<char>, Seq<char>),
> {
    seq![
        ("ORCA_AGENT_ID"@, spec.id@),
        ("ORCA_CONTEXT"@, input.context@),
        ("ORCA_GOAL"@, input.goal@),
        ("ORCA_INSTRUCTIONS"@, instruction),
        ("ORCA_NODE_KIND"@, kind_name(spec.kind)),
        ("ORCA_OUTPUT_CONTRACT"@, spec.output_contract@),
    ]
}

pub open spec fn env_view(e: Seq<(String, String)>) -> Seq<(Seq<char>, Seq<char>)> {
    e.map_values(|p: (String, String)| (p.0@, p.1@))
}

/// The arguments of an agent command: the built-in backend's when the node names none and
/// runs `copilot`, otherwise its own templates filled in.
pub open spec fn agent_args(spec: AgentSpec, input: AgentInput, instruction: Seq<char>) -> Seq<Seq<char>> {
    if spec.args@.len() == 0 && spec.command@ == "copilot"@ {
        contract_args(spec.output_contract@).drop_last().push(prompt_spec(input, instruction))
    } else {
        spec.args.deep_view().map_values(|t: Seq<char>| rendered_arg(t, input, instruction))
    }
}

fn push_env(env: &mut Vec<(String, String)>, name: &str, value: &str)
    ensures
        env_view(final(env)@) == env_view(old(env)@).push((name@, value@)),
{
    let ghost e0 = env_view(env@);
    env.push((owned(name), owned(value)));
    assert(env_view(env@) =~= e0.push((name@, value@)));
}

/// The command that runs an agent node.
pub fn agent_command(spec: &AgentSpec, input: &AgentInput, instruction: &str) -> (c: CommandSpec)
    ensures
        c.id@ == spec.id@,
        c.program@ == spec.command@,
        c.args.deep_view() == agent_args(*spec, *input, instruction@),
        c.depends_on@.len() == 0,
        env_view(c.env@) == agent_env(*spec, *input, instruction@),
        c.cwd is None,
        c.timeout_secs == spec.timeout_secs,
        c.retries == spec.retries,
        c.retry_delay_ms == spec.retry_delay_ms,
        opt_view(c.output_label) == Some(spec.output_contract@),
        opt_view(c.output_phase) == opt_view(spec.phase_label),
        opt_view(c.output_model) == model_of_args(spec.command@, c.args.deep_view()),
{
    let mut env: Vec<(String, String)> = Vec::new();
    let kind = kind_label(spec.kind);
    push_env(&mut env, "ORCA_AGENT_ID", spec.id.as_str());
    push_env(&mut env, "ORCA_CONTEXT", input.context.as_str());
    push_env(&mut env, "ORCA_GOAL", input.goal.as_str());
    push_env(&mut env, "ORCA_INSTRUCTIONS", instruction);
    push_env(&mut env, "ORCA_NODE_KIND", kind.as_str());
    push_env(&mut env, "ORCA_OUTPUT_CONTRACT", spec.output_contract.as_str());
    assert(env_view(env@) =~= agent_env(*spec, *input, instruction@));
    let args = if spec.args.len() == 0 && eq_str(spec.command.as_str(), "copilot") {
        default_copilot_args(spec.output_contract.as_str(), input, instruction)
    } else {
        let ghost t = spec.args.deep_view();
        let mut rendered: Vec<String> = Vec::new();
        let mut i: usize = 0;
        while i < spec.args.len()
            invariant
                t == spec.args.deep_view(),
                i <= t.len(),
                rendered.deep_view() =~= t.take(i as int).map_values(
                    |x: Seq<char>| rendered_arg(x, *input, instruction@),
                ),
            decreases spec.args.len() - i,
        {
            let ghost r0 = rendered.deep_view();
            rendered.push(render_arg(spec.args[i].as_str(), input, instruction));
            assert(rendered.deep_view() =~= r0.push(rendered_arg(t[i as int], *input, instruction@)));
            assert(t.take(i + 1) =~= t.take(i as int).push(t[i as int]));
            i = i + 1;
        }
        assert(t.take(t.len() as int) =~= t);
        rendered
    };
    let output_model = model_from_args(spec.command.as_str(), &args);
    CommandSpec {
        id: spec.id.clone(),
        program: spec.command.clone(),
        args,
        depends_on: Vec::new(),
        env,
        cwd: None,
        timeout_secs: spec.timeout_secs,
        retries: spec.retries,
        retry_delay_ms: spec.retry_delay_ms,
        output_label: Some(spec.output_contract.clone()),
        output_phase: clone_opt(&spec.phase_label),
        output_model,
    }
}

/// Why an agent command failed: its error (or a generic one), then its trimmed standard
/// error when that says something.
pub open spec fn failure_message(r: CommandResult) -> Seq<char> {
    let base = match opt_view(r.error) {
        Some(e) => e,
        None => "agent command failed"@,
    };
    if spec_is_blank(r.stderr@) {
        base
    } else {
        base + ": "@ + spec_trim(r.stderr@)
    }
}

/// The agent's output from its command's result, or the failure of the agent.
pub fn agent_output(spec: &AgentSpec, result: CommandResult) -> (r: Result<AgentOutput, AppError>)
    ensures
        result.outcome != CommandOutcome::Success ==> (r matches Err(AppError::AgentFailed {
            agent_id,
            message,
        }) && agent_id@ == spec.id@ && message@ == failure_message(result)),
        result.outcome == CommandOutcome::Success ==> (r matches Ok(o) && o.agent_id@ == spec.id@
            && o.kind == spec.kind && o.output_contract@ == spec.output_contract@ && opt_view(
            o.phase_label,
        ) == opt_view(spec.phase_label) && opt_view(o.artifact_dir) == opt_view(spec.artifact_dir)
            && o.content == result.stdout && o.artifact_path@.len() == 0),
{
    if !result.succeeded() {
        let mut message = match &result.error {
            Some(e) => e.clone(),
            None => owned("agent command failed"),
        };
        if !is_blank(result.stderr.as_str()) {
            let t = trim(result.stderr.as_str());
            let with_sep = cat(message.as_str(), ": ");
            message = cat(with_sep.as_str(), t.as_str());
        }
        return Err(AppError::AgentFailed { agent_id: spec.id.clone(), message });
    }
    Ok(
        AgentOutput {
            agent_id: spec.id.clone(),
            kind: spec.kind,
            output_contract: spec.output_contract.clone(),
            phase_label: clone_opt(&spec.phase_label),
            artifact_dir: clone_opt(&spec.artifact_dir),
            content: result.stdout,
            artifact_path: String::new(),
        },
    )
}

} // verus!
