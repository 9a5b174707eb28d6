//! The goal workflow: what each agent is given, when a node may start, and what is reported
//! after each iteration. The agents themselves are run by the caller.
use vstd::prelude::*;

use crate::agent::{AgentConfig, AgentInput, AgentOutput, AgentSpec};
use crate::completion::CompletionReport;
use crate::goal::GoalSummary;
use crate::config::{clone_strings, is_pseudo_source, join3, spec_is_pseudo_source};
use crate::errors::{
    first_problem, lemma_first_problem_none, lemma_first_problem_skip, reports, AppError,
};
use crate::text::{
    cat, chars_of, collapse_whitespace, decimal, decimal_spec, eq_str, first_nonblank_line,
    is_blank, owned, push_char, spec_collapse_whitespace, spec_first_nonblank_line, spec_is_blank,
    string_from_range,
};

verus! {

/// One section of an agent's context: where it comes from and what it says.
#[derive(Clone, Debug)]
pub struct AgentConnectionInput {
    pub source_id: String,
    pub content: String,
}

/// The sections of an agent's context, in order.
#[derive(Clone, Debug)]
pub struct InputBundle {
    pub inputs: Vec<AgentConnectionInput>,
}

pub open spec fn section(e: (Seq<char>, Seq<char>)) -> Seq<char> {
    "## "@ + e.0 + "\n\n"@ + e.1
}

/// The sections, each headed by its source, separated by blank lines.
pub open spec fn join_sections(es: Seq<(Seq<char>, Seq<char>)>) -> Seq<char>
    decreases es.len(),
{
    if es.len() == 0 {
        Seq::empty()
    } else if es.len() == 1 {
        section(es[0])
    } else {
        join_sections(es.drop_last()) + "\n\n"@ + section(es.last())
    }
}

pub open spec fn has_content() -> spec_fn((Seq<char>, Seq<char>)) -> bool {
    |e: (Seq<char>, Seq<char>)| !spec_is_blank(e.1)
}

/// What a bundle renders to: its sections that say something, in order.
pub open spec fn render_entries(es: Seq<(Seq<char>, Seq<char>)>) -> Seq<char> {
    join_sections(es.filter(has_content()))
}

pub open spec fn entries_of(v: Seq<AgentConnectionInput>) -> Seq<(Seq<char>, Seq<char>)> {
    v.map_values(|i: AgentConnectionInput| (i.source_id@, i.content@))
}

pub open spec fn output_entries(outs: Seq<AgentOutput>) -> Seq<(Seq<char>, Seq<char>)> {
    outs.map_values(|o: AgentOutput| (o.agent_id@, o.content@))
}

impl InputBundle {
    pub open spec fn entries(self) -> Seq<(Seq<char>, Seq<char>)> {
        entries_of(self.inputs@)
    }

    /// One section per output, in order.
    pub fn from_outputs(outputs: &Vec<AgentOutput>) -> (b: InputBundle)
        ensures
            b.entries() == output_entries(outputs@),
    {
        let mut inputs: Vec<AgentConnectionInput> = Vec::new();
        let mut i: usize = 0;
        while i < outputs.len()
            invariant
                i <= outputs@.len(),
                inputs@.len() == i,
                entries_of(inputs@) =~= output_entries(outputs@.take(i as int)),
            decreases outputs.len() - i,
        {
            let o = &outputs[i];
            let ghost before = inputs@;
            inputs.push(
                AgentConnectionInput { source_id: o.agent_id.clone(), content: o.content.clone() },
            );
            assert(outputs@.take(i + 1) =~= outputs@.take(i as int).push(outputs@[i as int]));
            assert(inputs@ =~= before.push(inputs@[i as int]));
            assert(entries_of(inputs@) =~= entries_of(before).push((o.agent_id@, o.content@)));
            i = i + 1;
        }
        assert(outputs@.take(outputs@.len() as int) =~= outputs@);
        InputBundle { inputs }
    }

    /// The sections with content, each as `## source`, a blank line and the content,
    /// separated by blank lines.
    pub fn render(&self) -> (r: String)
        ensures
            r@ == render_entries(self.entries()),
    {
        let ghost es = self.entries();
        let ghost pred = has_content();
        let mut out = String::new();
        let mut any = false;
        let mut i: usize = 0;
        while i < self.inputs.len()
            invariant
                es == self.entries(),
                pred == has_content(),
                i <= es.len(),
                out@ == join_sections(es.take(i as int).filter(pred)),
                any == (es.take(i as int).filter(pred).len() > 0),
            decreases self.inputs.len() - i,
        {
            let input = &self.inputs[i];
            let ghost before = es.take(i as int).filter(pred);
            assert(es.take(i + 1).drop_last() =~= es.take(i as int));
            assert(es.take(i + 1).last() == es[i as int]);
            assert(es[i as int] == (input.source_id@, input.content@));
            proof {
                reveal(Seq::filter);
            }
            if !is_blank(input.content.as_str()) {
                let head = cat("## ", input.source_id.as_str());
                let head = cat(head.as_str(), "\n\n");
                let sec = cat(head.as_str(), input.content.as_str());
                assert(sec@ == section(es[i as int]));
                if any {
                    let joined = cat(out.as_str(), "\n\n");
                    out = cat(joined.as_str(), sec.as_str());
                } else {
                    out = sec;
                }
                proof {
                    let after = es.take(i + 1).filter(pred);
                    assert(after == before.push(es[i as int]));
                    assert(after.drop_last() =~= before);
                    assert(after.last() == es[i as int]);
                }
                any = true;
            } else {
                assert(es.take(i + 1).filter(pred) == before);
            }
            i = i + 1;
        }
        assert(es.take(es.len() as int) =~= es);
        out
    }
}

/// The output recorded last for `id`, as a map keyed by agent keeps it.
pub open spec fn last_output(outs: Seq<AgentOutput>, id: Seq<char>) -> Option<AgentOutput>
    decreases outs.len(),
{
    if outs.len() == 0 {
        None
    } else if outs.last().agent_id@ == id {
        Some(outs.last())
    } else {
        last_output(outs.drop_last(), id)
    }
}

/// The section an input source contributes, if any.
pub open spec fn context_entry(
    src: Seq<char>,
    goal: Seq<char>,
    feedback: Seq<char>,
    gate_feedback: Seq<char>,
    outs: Seq<AgentOutput>,
) -> Option<(Seq<char>, Seq<char>)> {
    if src == "goal"@ {
        Some(("goal"@, goal))
    } else if src == "feedback"@ {
        Some(("feedback"@, feedback))
    } else if src == "gate-feedback"@ {
        Some(("gate-feedback"@, gate_feedback))
    } else {
        match last_output(outs, src) {
            Some(o) => Some((o.agent_id@, o.content@)),
            None => None,
        }
    }
}

/// The sections contributed by the input sources, in the order of the sources.
pub open spec fn context_entries(
    srcs: Seq<Seq<char>>,
    goal: Seq<char>,
    feedback: Seq<char>,
    gate_feedback: Seq<char>,
    outs: Seq<AgentOutput>,
) -> Seq<(Seq<char>, Seq<char>)>
    decreases srcs.len(),
{
    if srcs.len() == 0 {
        Seq::empty()
    } else {
        let prev = context_entries(srcs.drop_last(), goal, feedback, gate_feedback, outs);
        match context_entry(srcs.last(), goal, feedback, gate_feedback, outs) {
            Some(e) => prev.push(e),
            None => prev,
        }
    }
}

/// The context an agent is given: its input sources, in order, and nothing else.
pub open spec fn context_spec(
    spec: AgentSpec,
    goal: Seq<char>,
    feedback: Seq<char>,
    gate_feedback: Seq<char>,
    outs: Seq<AgentOutput>,
) -> Seq<char> {
    render_entries(
        context_entries(spec.input_sources.deep_view(), goal, feedback, gate_feedback, outs),
    )
}

fn find_last_output(outputs: &Vec<AgentOutput>, id: &str) -> (r: Option<usize>)
    ensures
        r matches Some(k) ==> k < outputs@.len() && last_output(outputs@, id@) == Some(
            outputs@[k as int],
        ),
        r is None ==> last_output(outputs@, id@) is None,
{
    let mut k: usize = outputs.len();
    assert(outputs@.take(k as int) =~= outputs@);
    while k > 0
        invariant
            k <= outputs@.len(),
            last_output(outputs@, id@) == last_output(outputs@.take(k as int), id@),
        decreases k,
    {
        let ghost t = outputs@.take(k as int);
        assert(t.drop_last() =~= outputs@.take(k - 1));
        assert(t.last() == outputs@[k - 1]);
        if eq_str(outputs[k - 1].agent_id.as_str(), id) {
            return Some(k - 1);
        }
        k = k - 1;
    }
    None
}

/// The context of a node: one section per input source, in order (dependencies add none).
pub fn build_context(
    spec: &AgentSpec,
    goal: &str,
    feedback: &str,
    gate_feedback: &str,
    outputs: &Vec<AgentOutput>,
) -> (r: String)
    ensures
        r@ == context_spec(*spec, goal@, feedback@, gate_feedback@, outputs@),
{
    let ghost srcs = spec.input_sources.deep_view();
    let mut inputs: Vec<AgentConnectionInput> = Vec::new();
    let mut i: usize = 0;
    while i < spec.input_sources.len()
        invariant
            srcs == spec.input_sources.deep_view(),
            i <= srcs.len(),
            entries_of(inputs@) == context_entries(
                srcs.take(i as int),
                goal@,
                feedback@,
                gate_feedback@,
                outputs@,
            ),
        decreases spec.input_sources.len() - i,
    {
        let source = &spec.input_sources[i];
        let ghost before = inputs@;
        assert(srcs.take(i + 1).drop_last() =~= srcs.take(i as int));
        assert(srcs.take(i + 1).last() == source@);
        proof {
            reveal_strlit("goal");
            reveal_strlit("feedback");
            reveal_strlit("gate-feedback");
        }
        let entry: Option<AgentConnectionInput> = if eq_str(source.as_str(), "goal") {
            Some(AgentConnectionInput { source_id: owned("goal"), content: owned(goal) })
        } else if eq_str(source.as_str(), "feedback") {
            Some(AgentConnectionInput { source_id: owned("feedback"), content: owned(feedback) })
        } else if eq_str(source.as_str(), "gate-feedback") {
            Some(
                AgentConnectionInput {
                    source_id: owned("gate-feedback"),
                    content: owned(gate_feedback),
                },
            )
        } else {
            match find_last_output(outputs, source.as_str()) {
                Some(k) => Some(
                    AgentConnectionInput {
                        source_id: outputs[k].agent_id.clone(),
                        content: outputs[k].content.clone(),
                    },
                ),
                None => None,
            }
        };
        match entry {
            Some(e) => {
                let ghost ev = (e.source_id@, e.content@);
                inputs.push(e);
                assert(entries_of(inputs@) =~= entries_of(before).push(ev));
            },
            None => {},
        }
        i = i + 1;
    }
    assert(srcs.take(srcs.len() as int) =~= srcs);
    let bundle = InputBundle { inputs };
    bundle.render()
}

/// Two agents with the same input sources get the same context, whatever they depend on.
pub proof fn lemma_context_ignores_dependencies(
    a: AgentSpec,
    b: AgentSpec,
    goal: Seq<char>,
    feedback: Seq<char>,
    gate_feedback: Seq<char>,
    outs: Seq<AgentOutput>,
)
    requires
        a.input_sources.deep_view() == b.input_sources.deep_view(),
    ensures
        context_spec(a, goal, feedback, gate_feedback, outs) == context_spec(
            b,
            goal,
            feedback,
            gate_feedback,
            outs,
        ),
{
}

// ---------------------------------------------------------------- readiness

/// Every dependency is a pseudo source or has completed.
pub open spec fn deps_done(spec: AgentSpec, completed: Seq<Seq<char>>) -> bool {
    forall|j: int|
        0 <= j < spec.depends_on@.len() ==> spec_is_pseudo_source((#[trigger] spec.depends_on@[j])@)
            || completed.contains(spec.depends_on@[j]@)
}

/// None of the resources is held by a running agent.
pub open spec fn resources_free(spec: AgentSpec, running: Seq<Seq<char>>) -> bool {
    forall|j: int| 0 <= j < spec.resources@.len() ==> !running.contains((#[trigger] spec.resources@[j])@)
}

pub fn dependencies_satisfied(spec: &AgentSpec, completed: &Vec<String>) -> (r: bool)
    ensures
        r == deps_done(*spec, completed.deep_view()),
{
    let mut j: usize = 0;
    while j < spec.depends_on.len()
        invariant
            j <= spec.depends_on@.len(),
            forall|m: int|
                0 <= m < j ==> spec_is_pseudo_source((#[trigger] spec.depends_on@[m])@)
                    || completed.deep_view().contains(spec.depends_on@[m]@),
        decreases spec.depends_on.len() - j,
    {
        let d = &spec.depends_on[j];
        if !is_pseudo_source(d.as_str()) && !contains(completed, d.as_str()) {
            return false;
        }
        j = j + 1;
    }
    true
}

pub fn resources_available(spec: &AgentSpec, running: &Vec<String>) -> (r: bool)
    ensures
        r == resources_free(*spec, running.deep_view()),
{
    let mut j: usize = 0;
    while j < spec.resources.len()
        invariant
            j <= spec.resources@.len(),
            forall|m: int|
                0 <= m < j ==> !running.deep_view().contains((#[trigger] spec.resources@[m])@),
        decreases spec.resources.len() - j,
    {
        if contains(running, spec.resources[j].as_str()) {
            return false;
        }
        j = j + 1;
    }
    true
}

fn contains(v: &Vec<String>, s: &str) -> (r: bool)
    ensures
        r == v.deep_view().contains(s@),
{
    crate::config::contains_string(v, s)
}

// ---------------------------------------------------------------- agent configuration

pub open spec fn agent_spec_problem(specs: Seq<AgentSpec>, i: int) -> Option<Seq<char>> {
    let s = specs[i];
    if spec_is_blank(s.id@) {
        Some("agent id must not be empty"@)
    } else if spec_is_blank(s.command@) {
        Some("agent `"@ + s.id@ + "` command must not be empty"@)
    } else if spec_is_blank(s.output_contract@) {
        Some("agent `"@ + s.id@ + "` output_contract must not be empty"@)
    } else {
        None
    }
}

pub open spec fn agent_spec_problems(specs: Seq<AgentSpec>) -> spec_fn(int) -> Option<Seq<char>> {
    |i: int| agent_spec_problem(specs, i)
}

/// What running a goal refuses in an agent configuration.
pub open spec fn agent_config_problem(c: AgentConfig) -> Option<Seq<char>> {
    if c.specs@.len() == 0 {
        Some("orchestration.nodes must contain at least one agent node"@)
    } else {
        first_problem(agent_spec_problems(c.specs@), 0, c.specs@.len() as int)
    }
}

/// There is an agent, and every agent has an id, a command and an output contract.
pub fn validate_agent_config(config: &AgentConfig) -> (r: Result<(), AppError>)
    ensures
        reports(r, agent_config_problem(*config)),
{
    if config.specs.len() == 0 {
        return Err(
            AppError::InvalidConfig(
                owned("orchestration.nodes must contain at least one agent node"),
            ),
        );
    }
    let ghost f = agent_spec_problems(config.specs@);
    let n = config.specs.len();
    let mut i: usize = 0;
    while i < n
        invariant
            f == agent_spec_problems(config.specs@),
            n == config.specs@.len(),
            i <= n,
            forall|j: int| 0 <= j < i ==> (#[trigger] f(j)) is None,
        decreases n - i,
    {
        proof {
            lemma_first_problem_skip(f, 0, i as int, n as int);
        }
        let s = &config.specs[i];
        if is_blank(s.id.as_str()) {
            return Err(AppError::InvalidConfig(owned("agent id must not be empty")));
        }
        if is_blank(s.command.as_str()) {
            return Err(
                AppError::InvalidConfig(
                    join3("agent `", s.id.as_str(), "` command must not be empty"),
                ),
            );
        }
        if is_blank(s.output_contract.as_str()) {
            return Err(
                AppError::InvalidConfig(
                    join3("agent `", s.id.as_str(), "` output_contract must not be empty"),
                ),
            );
        }
        i = i + 1;
    }
    proof {
        lemma_first_problem_none(f, 0, n as int);
    }
    Ok(())
}

// ---------------------------------------------------------------- glimpses and summaries

/// The words of `value` joined by single spaces, cut to `max_chars` characters with an
/// ellipsis as the last one when longer.
pub open spec fn truncate_plain_spec(value: Seq<char>, max_chars: nat) -> Seq<char> {
    let n = spec_collapse_whitespace(value);
    if n.len() <= max_chars {
        n
    } else {
        n.take(if max_chars == 0 {
            0
        } else {
            max_chars - 1
        }) + seq!['…']
    }
}

pub fn truncate_plain(value: &str, max_chars: usize) -> (r: String)
    ensures
        r@ == truncate_plain_spec(value@, max_chars as nat),
{
    let normalized = collapse_whitespace(value);
    let v = chars_of(normalized.as_str());
    if v.len() <= max_chars {
        return normalized;
    }
    let keep: usize = if max_chars == 0 {
        0
    } else {
        max_chars - 1
    };
    let mut r = string_from_range(&v, 0, keep);
    push_char(&mut r, '…');
    assert(r@ =~= v@.take(keep as int) + seq!['…']);
    r
}

/// The first non-blank line of the context, or nothing.
pub open spec fn context_line(context: Seq<char>) -> Seq<char> {
    match spec_first_nonblank_line(context) {
        Some(l) => l,
        None => Seq::empty(),
    }
}

pub open spec fn input_glimpse_spec(input: AgentInput) -> Seq<char> {
    truncate_plain_spec("goal: "@ + input.goal@ + " | context: "@ + context_line(input.context@), 160)
}

/// A one-line preview of what an agent is given.
pub fn input_glimpse(input: &AgentInput) -> (r: String)
    ensures
        r@ == input_glimpse_spec(*input),
{
    let line = match first_nonblank_line(input.context.as_str()) {
        Some(l) => l,
        None => String::new(),
    };
    let head = join3("goal: ", input.goal.as_str(), " | context: ");
    let text = cat(head.as_str(), line.as_str());
    truncate_plain(text.as_str(), 160)
}

pub open spec fn iteration_headline(iteration: nat, completed: bool) -> Seq<char> {
    if completed {
        "Iteration "@ + decimal_spec(iteration) + ": all completion gates passed."@
    } else {
        "Iteration "@ + decimal_spec(iteration) + ": completion gates did not pass."@
    }
}

pub open spec fn failure_reason(feedback: Seq<char>) -> Seq<char> {
    match spec_first_nonblank_line(feedback) {
        Some(l) => l,
        None => "completion gates failed"@,
    }
}

pub open spec fn iteration_next_step(
    completed: bool,
    can_retry: bool,
    feedback: Seq<char>,
    max_iterations: nat,
) -> Seq<char> {
    if completed {
        "Goal complete; no further iterations."@
    } else if can_retry {
        "Starting another iteration because "@ + failure_reason(feedback) + "."@
    } else if spec_is_blank(feedback) {
        "Stopping because max_iterations ("@ + decimal_spec(max_iterations) + ") was reached."@
    } else {
        "Stopping because max_iterations ("@ + decimal_spec(max_iterations)
            + ") was reached; last reason: "@ + failure_reason(feedback) + "."@
    }
}

/// The headline and the next step reported after an iteration.
pub fn iteration_summary_text(
    iteration: usize,
    completed: bool,
    can_retry: bool,
    feedback: &str,
    max_iterations: usize,
) -> (r: (String, String))
    ensures
        r.0@ == iteration_headline(iteration as nat, completed),
        r.1@ == iteration_next_step(completed, can_retry, feedback@, max_iterations as nat),
{
    let n = decimal(iteration as u64);
    let headline = if completed {
        join3("Iteration ", n.as_str(), ": all completion gates passed.")
    } else {
        join3("Iteration ", n.as_str(), ": completion gates did not pass.")
    };
    let reason = match first_nonblank_line(feedback) {
        Some(l) => l,
        None => owned("completion gates failed"),
    };
    let next = if completed {
        owned("Goal complete; no further iterations.")
    } else if can_retry {
        join3("Starting another iteration because ", reason.as_str(), ".")
    } else if is_blank(feedback) {
        let m = decimal(max_iterations as u64);
        join3("Stopping because max_iterations (", m.as_str(), ") was reached.")
    } else {
        let m = decimal(max_iterations as u64);
        let head = join3("Stopping because max_iterations (", m.as_str(), ") was reached; last reason: ");
        join3(head.as_str(), reason.as_str(), ".")
    };
    (headline, next)
}

// ---------------------------------------------------------------- graph runs

/// The progress of one run of the agent graph. Agents are started and awaited by the caller,
/// which reports each finished agent back; this state decides what may start next.
#[derive(Debug)]
pub struct GraphRunState {
    /// Agents not yet started, with their position in the graph.
    pub pending: Vec<(usize, AgentSpec)>,
    /// How many agents are running.
    pub running: usize,
    /// Resources held by running agents.
    pub running_resources: Vec<String>,
    /// Agents that have finished.
    pub completed: Vec<String>,
    /// Finished outputs, in the order they finished.
    pub recorded: Vec<AgentOutput>,
    /// Finished outputs with their positions, ordered by position.
    pub finished: Vec<(usize, AgentOutput)>,
    pub stopped_for_approval: bool,
    pub max_parallel: usize,
    pub approved: bool,
}

/// The positions of the entries never decrease.
pub open spec fn by_position(s: Seq<(usize, AgentOutput)>) -> bool {
    forall|i: int, j: int| 0 <= i < j < s.len() ==> (#[trigger] s[i]).0 <= (#[trigger] s[j]).0
}

/// How many leading entries have a position not after `k`.
pub open spec fn leading_not_after(s: Seq<(usize, AgentOutput)>, k: usize) -> int
    decreases s.len(),
{
    if s.len() == 0 {
        0
    } else if s[0].0 <= k {
        1 + leading_not_after(s.drop_first(), k)
    } else {
        0
    }
}

/// The first pending agent, from `i` on, whose dependencies are done and whose resources are
/// free; the length when there is none.
pub open spec fn first_ready_from(
    pending: Seq<(usize, AgentSpec)>,
    completed: Seq<Seq<char>>,
    running: Seq<Seq<char>>,
    i: int,
) -> int
    decreases pending.len() - i,
{
    if i >= pending.len() {
        pending.len() as int
    } else if deps_done(pending[i].1, completed) && resources_free(pending[i].1, running) {
        i
    } else {
        first_ready_from(pending, completed, running, i + 1)
    }
}

pub open spec fn enumerate_specs(specs: Seq<AgentSpec>) -> Seq<(usize, AgentSpec)> {
    Seq::new(specs.len(), |i: int| (i as usize, specs[i]))
}

/// What starting the next agent does: nothing when `max_parallel` agents run or none is ready;
/// otherwise the first ready agent leaves the pending list, takes its resources and is
/// handed back.
pub open spec fn start_outcome(
    old: GraphRunState,
    new: GraphRunState,
    r: Option<(usize, AgentSpec)>,
) -> bool {
    let p = old.first_ready();
    if old.running >= old.max_parallel || p == old.pending@.len() {
        r is None && new == old
    } else {
        &&& r == Some(old.pending@[p])
        &&& new.pending@ == old.pending@.remove(p)
        &&& new.running == old.running + 1
        &&& new.running_resources.deep_view().to_set() == old.running_resources.deep_view().to_set().union(
            old.pending@[p].1.resources.deep_view().to_set(),
        )
        &&& new.completed == old.completed
        &&& new.recorded == old.recorded
        &&& new.finished == old.finished
        &&& new.stopped_for_approval == old.stopped_for_approval
        &&& new.max_parallel == old.max_parallel
        &&& new.approved == old.approved
    }
}

proof fn lemma_first_ready_is_ready(
    pending: Seq<(usize, AgentSpec)>,
    completed: Seq<Seq<char>>,
    running: Seq<Seq<char>>,
    i: int,
)
    requires
        0 <= i,
    ensures
        first_ready_from(pending, completed, running, i) <= pending.len(),
        first_ready_from(pending, completed, running, i) < pending.len() ==> {
            let k = first_ready_from(pending, completed, running, i);
            &&& i <= k
            &&& deps_done(pending[k].1, completed)
            &&& resources_free(pending[k].1, running)
        },
    decreases pending.len() - i,
{
    if i < pending.len() && !(deps_done(pending[i].1, completed) && resources_free(
        pending[i].1,
        running,
    )) {
        lemma_first_ready_is_ready(pending, completed, running, i + 1);
    }
}

/// An agent handed out to run was pending, fewer than `max_parallel` agents ran, every one
/// of its dependencies is `goal`, `feedback`, `gate-feedback` or an agent that has completed
/// (all of them, not some), and none of its resources is held by a running agent.
pub proof fn lemma_started_agent_is_ready(
    old: GraphRunState,
    new: GraphRunState,
    r: Option<(usize, AgentSpec)>,
)
    requires
        start_outcome(old, new, r),
        r is Some,
    ensures
        old.running < old.max_parallel,
        old.pending@.contains(r->0),
        forall|j: int|
            0 <= j < (r->0).1.depends_on@.len() ==> {
                let d = (#[trigger] (r->0).1.depends_on@[j])@;
                d == "goal"@ || d == "feedback"@ || d == "gate-feedback"@
                    || old.completed.deep_view().contains(d)
            },
        forall|j: int|
            0 <= j < (r->0).1.resources@.len() ==> !old.running_resources.deep_view().contains(
                (#[trigger] (r->0).1.resources@[j])@,
            ),
{
    lemma_first_ready_is_ready(
        old.pending@,
        old.completed.deep_view(),
        old.running_resources.deep_view(),
        0,
    );
    let p = old.first_ready();
    assert(p < old.pending@.len());
    assert(old.pending@[p] == r->0);
    assert(deps_done(old.pending@[p].1, old.completed.deep_view()));
    let spec = (r->0).1;
    assert forall|j: int| 0 <= j < spec.depends_on@.len() implies {
        let d = (#[trigger] spec.depends_on@[j])@;
        d == "goal"@ || d == "feedback"@ || d == "gate-feedback"@
            || old.completed.deep_view().contains(d)
    } by {
        assert(spec_is_pseudo_source(spec.depends_on@[j]@) || old.completed.deep_view().contains(
            spec.depends_on@[j]@,
        ));
    }
}

/// What recording a finished agent does: its resources are released, it counts as
/// completed, its output is kept, and a golden plan that is not approved stops the run.
pub open spec fn finish_outcome(
    old: GraphRunState,
    new: GraphRunState,
    order: usize,
    output: AgentOutput,
    resources: Seq<Seq<char>>,
) -> bool {
    let stop = output.output_contract@ == "golden_plan"@ && !old.approved;
    &&& new.running == old.running - 1
    &&& new.running_resources.deep_view().to_set() == old.running_resources.deep_view().to_set().difference(
        resources.to_set(),
    )
    &&& new.completed.deep_view().to_set() == old.completed.deep_view().to_set().insert(
        output.agent_id@,
    )
    &&& new.recorded@ == old.recorded@.push(output)
    &&& new.finished@ == old.finished@.insert(
        leading_not_after(old.finished@, order),
        (order, output),
    )
    &&& stop ==> new.pending@.len() == 0 && new.stopped_for_approval
    &&& !stop ==> new.pending@ == old.pending@ && new.stopped_for_approval
        == old.stopped_for_approval
    &&& new.max_parallel == old.max_parallel
    &&& new.approved == old.approved
}

impl GraphRunState {
    pub open spec fn wf(self) -> bool {
        &&& self.running_resources.deep_view().no_duplicates()
        &&& self.completed.deep_view().no_duplicates()
        &&& by_position(self.finished@)
    }

    pub open spec fn first_ready(self) -> int {
        first_ready_from(
            self.pending@,
            self.completed.deep_view(),
            self.running_resources.deep_view(),
            0,
        )
    }

    /// A run of `specs` with nothing started yet.
    pub fn new(specs: Vec<AgentSpec>, max_parallel: usize, approved: bool) -> (st: Self)
        requires
            specs@.len() <= usize::MAX,
        ensures
            st.wf(),
            st.pending@ == enumerate_specs(specs@),
            st.running == 0,
            st.running_resources@.len() == 0,
            st.completed@.len() == 0,
            st.recorded@.len() == 0,
            st.finished@.len() == 0,
            !st.stopped_for_approval,
            st.max_parallel == max_parallel,
            st.approved == approved,
    {
        let ghost sv = specs@;
        let n = specs.len();
        let mut rest = specs;
        let mut pending: Vec<(usize, AgentSpec)> = Vec::new();
        let mut i: usize = 0;
        while i < n
            invariant
                n == sv.len(),
                i <= n,
                rest@ == sv.subrange(i as int, n as int),
                pending@ =~= enumerate_specs(sv).take(i as int),
            decreases n - i,
        {
            let spec = rest.remove(0);
            assert(spec == sv[i as int]);
            pending.push((i, spec));
            assert(rest@ =~= sv.subrange(i + 1, n as int));
            i = i + 1;
        }
        assert(enumerate_specs(sv).take(n as int) =~= enumerate_specs(sv));
        GraphRunState {
            pending,
            running: 0,
            running_resources: Vec::new(),
            completed: Vec::new(),
            recorded: Vec::new(),
            finished: Vec::new(),
            stopped_for_approval: false,
            max_parallel,
            approved,
        }
    }

    fn find_ready(&self) -> (r: usize)
        ensures
            r == self.first_ready(),
            r <= self.pending@.len(),
    {
        let mut i: usize = 0;
        while i < self.pending.len()
            invariant
                i <= self.pending@.len(),
                self.first_ready() == first_ready_from(
                    self.pending@,
                    self.completed.deep_view(),
                    self.running_resources.deep_view(),
                    i as int,
                ),
            decreases self.pending.len() - i,
        {
            let spec = &self.pending[i].1;
            if dependencies_satisfied(spec, &self.completed) && resources_available(
                spec,
                &self.running_resources,
            ) {
                return i;
            }
            i = i + 1;
        }
        i
    }

    /// Starts the first pending agent that may run, when fewer than `max_parallel` run: it
    /// leaves the pending list, takes its resources, and is handed back to be run.
    pub fn start_next(&mut self) -> (r: Option<(usize, AgentSpec)>)
        requires
            old(self).wf(),
            old(self).running < usize::MAX,
        ensures
            final(self).wf(),
            start_outcome(*old(self), *final(self), r),
    {
        if self.running >= self.max_parallel {
            return None;
        }
        let p = self.find_ready();
        if p == self.pending.len() {
            return None;
        }
        let entry = self.pending.remove(p);
        let mut held = clone_strings(&self.running_resources);
        add_all(&mut held, &entry.1.resources);
        self.running_resources = held;
        self.running = self.running + 1;
        Some(entry)
    }

    /// Records a finished agent: its resources are released, it counts as completed, its
    /// output is kept, and a golden plan that is not approved stops the run.
    pub fn finish(&mut self, order: usize, output: AgentOutput, resources: &Vec<String>)
        requires
            old(self).wf(),
            old(self).running > 0,
        ensures
            final(self).wf(),
            finish_outcome(*old(self), *final(self), order, output, resources.deep_view()),
    {
        let mut held = clone_strings(&self.running_resources);
        remove_all(&mut held, resources);
        self.running_resources = held;
        self.running = self.running - 1;
        let mut done = clone_strings(&self.completed);
        add_one(&mut done, &output.agent_id);
        self.completed = done;
        proof {
            reveal_strlit("golden_plan");
        }
        let stop = eq_str(output.output_contract.as_str(), "golden_plan") && !self.approved;
        if stop {
            self.pending.clear();
            self.stopped_for_approval = true;
        }
        let copy = output.clone();
        self.recorded.push(copy);
        let mut fin: Vec<(usize, AgentOutput)> = Vec::new();
        std::mem::swap(&mut fin, &mut self.finished);
        insert_by_position(&mut fin, order, output);
        self.finished = fin;
    }

    /// When nothing runs: `None` if every agent has been started, otherwise the error naming
    /// the agents that could never start.
    pub fn stalled(&self) -> (r: Option<AppError>)
        ensures
            self.pending@.len() == 0 <==> r is None,
            r matches Some(e) ==> e matches AppError::InvalidConfig(m) && m@
                == "graph could not make progress; blocked nodes: "@ + joined_ids(self.pending@),
    {
        if self.pending.len() == 0 {
            return None;
        }
        let mut ids = String::new();
        let mut i: usize = 0;
        while i < self.pending.len()
            invariant
                i <= self.pending@.len(),
                ids@ == joined_ids(self.pending@.take(i as int)),
            decreases self.pending.len() - i,
        {
            assert(self.pending@.take(i + 1).drop_last() =~= self.pending@.take(i as int));
            if i > 0 {
                ids = cat(ids.as_str(), ", ");
            }
            ids = cat(ids.as_str(), self.pending[i].1.id.as_str());
            i = i + 1;
        }
        assert(self.pending@.take(self.pending@.len() as int) =~= self.pending@);
        Some(
            AppError::InvalidConfig(
                cat("graph could not make progress; blocked nodes: ", ids.as_str()),
            ),
        )
    }

    /// The finished outputs in graph order.
    pub fn into_outputs(self) -> (r: Vec<AgentOutput>)
        ensures
            r@ == self.finished@.map_values(|e: (usize, AgentOutput)| e.1),
    {
        let ghost f = self.finished@;
        let n = self.finished.len();
        let mut rest = self.finished;
        let mut out: Vec<AgentOutput> = Vec::new();
        let mut i: usize = 0;
        while i < n
            invariant
                n == f.len(),
                i <= n,
                rest@ == f.subrange(i as int, n as int),
                out@ =~= f.map_values(|e: (usize, AgentOutput)| e.1).take(i as int),
            decreases n - i,
        {
            let e = rest.remove(0);
            assert(e == f[i as int]);
            out.push(e.1);
            assert(rest@ =~= f.subrange(i + 1, n as int));
            i = i + 1;
        }
        assert(f.map_values(|e: (usize, AgentOutput)| e.1).take(n as int) =~= f.map_values(
            |e: (usize, AgentOutput)| e.1,
        ));
        out
    }
}

/// The ids of the entries joined by commas.
pub open spec fn joined_ids(s: Seq<(usize, AgentSpec)>) -> Seq<char>
    decreases s.len(),
{
    if s.len() == 0 {
        Seq::empty()
    } else if s.len() == 1 {
        s[0].1.id@
    } else {
        joined_ids(s.drop_last()) + ", "@ + s.last().1.id@
    }
}

fn add_one(set: &mut Vec<String>, x: &String)
    requires
        old(set).deep_view().no_duplicates(),
    ensures
        final(set).deep_view().no_duplicates(),
        forall|y: Seq<char>|
            final(set).deep_view().contains(y) <==> (old(set).deep_view().contains(y) || y == x@),
        final(set).deep_view().to_set() == old(set).deep_view().to_set().insert(x@),
{
    let ghost s0 = set.deep_view();
    if !contains(set, x.as_str()) {
        set.push(x.clone());
        proof {
            let s1 = set.deep_view();
            assert(s1 =~= s0.push(x@));
            assert forall|a: int, b: int|
                0 <= a < s1.len() && 0 <= b < s1.len() && a != b implies s1[a] != s1[b] by {
                if a < s0.len() && b < s0.len() {
                    assert(s1[a] == s0[a] && s1[b] == s0[b]);
                } else if a < s0.len() {
                    assert(s0.contains(s1[a]));
                } else if b < s0.len() {
                    assert(s0.contains(s1[b]));
                }
            }
            assert forall|y: Seq<char>| s1.contains(y) <==> (s0.contains(y) || y == x@) by {
                if s1.contains(y) && y != x@ {
                    let k = choose|k: int| 0 <= k < s1.len() && s1[k] == y;
                    assert(s0[k] == y);
                }
                if s0.contains(y) {
                    let k = choose|k: int| 0 <= k < s0.len() && s0[k] == y;
                    assert(s1[k] == y);
                }
                if y == x@ {
                    assert(s1[s0.len() as int] == y);
                }
            }
        }
    }
    proof {
        if s0.contains(x@) {
            assert(set.deep_view() == s0);
        }
        assert(set.deep_view().to_set() =~= s0.to_set().insert(x@));
    }
}

#[verifier::spinoff_prover]
#[verifier::rlimit(40)]
fn add_all(set: &mut Vec<String>, items: &Vec<String>)
    requires
        old(set).deep_view().no_duplicates(),
    ensures
        final(set).deep_view().no_duplicates(),
        forall|y: Seq<char>|
            final(set).deep_view().contains(y) <==> (old(set).deep_view().contains(y)
                || items.deep_view().contains(y)),
        final(set).deep_view().to_set() == old(set).deep_view().to_set().union(
            items.deep_view().to_set(),
        ),
{
    let ghost s0 = set.deep_view();
    let mut i: usize = 0;
    while i < items.len()
        invariant
            i <= items@.len(),
            s0 == old(set).deep_view(),
            set.deep_view().no_duplicates(),
            forall|y: Seq<char>|
                set.deep_view().contains(y) <==> (s0.contains(y) || items.deep_view().take(
                    i as int,
                ).contains(y)),
        decreases items.len() - i,
    {
        let ghost before = set.deep_view();
        assert(forall|y: Seq<char>|
            #[trigger] before.contains(y) <==> (s0.contains(y) || items.deep_view().take(
                i as int,
            ).contains(y)));
        add_one(set, &items[i]);
        proof {
            let t0 = items.deep_view().take(i as int);
            let t1 = items.deep_view().take(i + 1);
            assert(t1 =~= t0.push(items@[i as int]@));
            assert forall|y: Seq<char>| t1.contains(y) <==> (t0.contains(y) || y == items@[i as int]@) by {
                if t1.contains(y) && y != items@[i as int]@ {
                    let k = choose|k: int| 0 <= k < t1.len() && t1[k] == y;
                    assert(t0[k] == y);
                }
                if t0.contains(y) {
                    let k = choose|k: int| 0 <= k < t0.len() && t0[k] == y;
                    assert(t1[k] == y);
                }
                if y == items@[i as int]@ {
                    assert(t1[i as int] == y);
                }
            }
            assert forall|y: Seq<char>|
                set.deep_view().contains(y) <==> (s0.contains(y) || t1.contains(y)) by {
                assert(set.deep_view().contains(y) <==> (before.contains(y) || y
                    == items@[i as int]@));
                assert(before.contains(y) <==> (s0.contains(y) || t0.contains(y)));
            }
        }
        i = i + 1;
    }
    assert(items.deep_view().take(items@.len() as int) =~= items.deep_view());
    assert(set.deep_view().to_set() =~= s0.to_set().union(items.deep_view().to_set()));
}

fn remove_all(set: &mut Vec<String>, items: &Vec<String>)
    requires
        old(set).deep_view().no_duplicates(),
    ensures
        final(set).deep_view().no_duplicates(),
        forall|y: Seq<char>|
            final(set).deep_view().contains(y) <==> (old(set).deep_view().contains(y)
                && !items.deep_view().contains(y)),
        final(set).deep_view().to_set() == old(set).deep_view().to_set().difference(
            items.deep_view().to_set(),
        ),
{
    let ghost s0 = set.deep_view();
    let mut kept: Vec<String> = Vec::new();
    let mut i: usize = 0;
    while i < set.len()
        invariant
            s0 == set.deep_view(),
            s0.no_duplicates(),
            i <= s0.len(),
            kept.deep_view().no_duplicates(),
            forall|y: Seq<char>|
                kept.deep_view().contains(y) <==> (s0.take(i as int).contains(y)
                    && !items.deep_view().contains(y)),
        decreases set.len() - i,
    {
        let ghost k0 = kept.deep_view();
        let ghost t0 = s0.take(i as int);
        let ghost t1 = s0.take(i + 1);
        assert(t1 =~= t0.push(s0[i as int]));
        assert(!t0.contains(s0[i as int])) by {
            if t0.contains(s0[i as int]) {
                let k = choose|k: int| 0 <= k < t0.len() && t0[k] == s0[i as int];
                assert(s0[k] == s0[i as int]);
            }
        }
        if !contains(items, set[i].as_str()) {
            kept.push(set[i].clone());
            proof {
                let k1 = kept.deep_view();
                assert(k1 =~= k0.push(s0[i as int]));
                assert forall|a: int, b: int|
                    0 <= a < k1.len() && 0 <= b < k1.len() && a != b implies k1[a] != k1[b] by {
                    if a < k0.len() && b < k0.len() {
                        assert(k1[a] == k0[a] && k1[b] == k0[b]);
                    } else if a < k0.len() {
                        assert(k0.contains(k1[a]));
                    } else if b < k0.len() {
                        assert(k0.contains(k1[b]));
                    }
                }
            }
        }
        proof {
            let k1 = kept.deep_view();
            let x = s0[i as int];
            assert forall|y: Seq<char>| t1.contains(y) <==> (t0.contains(y) || y == x) by {
                if t1.contains(y) && y != x {
                    let k = choose|k: int| 0 <= k < t1.len() && t1[k] == y;
                    assert(t0[k] == y);
                }
                if t0.contains(y) {
                    let k = choose|k: int| 0 <= k < t0.len() && t0[k] == y;
                    assert(t1[k] == y);
                }
                if y == x {
                    assert(t1[i as int] == y);
                }
            }
            if items.deep_view().contains(x) {
                assert(k1 == k0);
            } else {
                assert forall|y: Seq<char>| k1.contains(y) <==> (k0.contains(y) || y == x) by {
                    if k1.contains(y) && y != x {
                        let k = choose|k: int| 0 <= k < k1.len() && k1[k] == y;
                        assert(k0[k] == y);
                    }
                    if k0.contains(y) {
                        let k = choose|k: int| 0 <= k < k0.len() && k0[k] == y;
                        assert(k1[k] == y);
                    }
                    if y == x {
                        assert(k1[k0.len() as int] == y);
                    }
                }
            }
            assert forall|y: Seq<char>|
                k1.contains(y) <==> (t1.contains(y) && !items.deep_view().contains(y)) by {
                assert(k0.contains(y) <==> (t0.contains(y) && !items.deep_view().contains(y)));
            }
        }
        i = i + 1;
    }
    assert(s0.take(s0.len() as int) =~= s0);
    *set = kept;
    assert(set.deep_view().to_set() =~= s0.to_set().difference(items.deep_view().to_set()));
}

#[verifier::spinoff_prover]
#[verifier::rlimit(40)]
fn insert_by_position(v: &mut Vec<(usize, AgentOutput)>, order: usize, output: AgentOutput)
    requires
        by_position(old(v)@),
    ensures
        by_position(final(v)@),
        final(v)@ == old(v)@.insert(leading_not_after(old(v)@, order), (order, output)),
{
    let ghost s = v@;
    let mut pos: usize = 0;
    assert(s.subrange(0, s.len() as int) =~= s);
    while pos < v.len() && v[pos].0 <= order
        invariant
            s == v@,
            pos <= s.len(),
            forall|k: int| 0 <= k < pos ==> (#[trigger] s[k]).0 <= order,
            leading_not_after(s, order) == pos + leading_not_after(
                s.subrange(pos as int, s.len() as int),
                order,
            ),
        decreases v.len() - pos,
    {
        let ghost t = s.subrange(pos as int, s.len() as int);
        assert(t.drop_first() =~= s.subrange(pos + 1, s.len() as int));
        assert(t[0] == s[pos as int]);
        pos = pos + 1;
    }
    proof {
        let t = s.subrange(pos as int, s.len() as int);
        if pos < s.len() {
            assert(t[0] == s[pos as int]);
        }
        assert(leading_not_after(t, order) == 0);
    }
    v.insert(pos, (order, output));
    proof {
        let s1 = v@;
        assert forall|i: int, j: int| 0 <= i < j < s1.len() implies (#[trigger] s1[i]).0 <= (
        #[trigger] s1[j]).0 by {
            if j < pos {
                assert(s1[i] == s[i] && s1[j] == s[j]);
            } else if j == pos {
                assert(s1[i] == s[i]);
            } else if i < pos {
                assert(s1[i] == s[i] && s1[j] == s[j - 1]);
            } else if i == pos {
                assert(s1[j] == s[j - 1]);
                assert(s[pos as int].0 > order);
                assert(s[pos as int].0 <= s[j - 1].0);
            } else {
                assert(s1[i] == s[i - 1] && s1[j] == s[j - 1]);
            }
        }
    }
}

// ---------------------------------------------------------------- goal runs

/// What a goal run takes from its agent configuration and request.
#[derive(Clone, Debug)]
pub struct GoalPlan {
    pub max_parallel: usize,
    pub max_iterations: usize,
    pub approved: bool,
    /// The agents of the main graph.
    pub main_specs: Vec<AgentSpec>,
    /// The agents that turn failed gates into feedback.
    pub feedback_specs: Vec<AgentSpec>,
}

pub open spec fn is_feedback_spec() -> spec_fn(AgentSpec) -> bool {
    |s: AgentSpec| s.output_contract@ == "feedback"@
}

pub open spec fn is_main_spec() -> spec_fn(AgentSpec) -> bool {
    |s: AgentSpec| s.output_contract@ != "feedback"@
}

/// The parallelism of a run: the request's, else the settings', else the configuration's,
/// else four.
pub open spec fn goal_parallelism(
    request: Option<usize>,
    settings: Option<usize>,
    configured: Option<usize>,
) -> usize {
    match request {
        Some(n) => n,
        None => match settings {
            Some(n) => n,
            None => match configured {
                Some(n) => n,
                None => 4,
            },
        },
    }
}

pub open spec fn goal_plan_of(
    c: AgentConfig,
    request: Option<usize>,
    settings: Option<usize>,
    approve: bool,
    p: GoalPlan,
) -> bool {
    &&& p.max_parallel == goal_parallelism(request, settings, c.max_parallel_agents)
    &&& p.max_iterations == match c.max_iterations {
        Some(n) => if n == 0 {
            1
        } else {
            n
        },
        None => 1,
    }
    &&& p.approved == match c.approval_mode {
        Some(crate::agent::ApprovalMode::Manual) => approve,
        _ => true,
    }
    &&& p.main_specs@ == c.specs@.filter(is_main_spec())
    &&& p.feedback_specs@ == c.specs@.filter(is_feedback_spec())
}

/// Where a goal run keeps its artifacts: the directory asked for with the run, else the
/// settings' default, else the workflow's own; none leaves the choice to the workspace.
pub fn goal_artifact_dir(
    requested: Option<String>,
    settings_default: Option<String>,
    workflow: Option<String>,
) -> (r: Option<String>)
    ensures
        r == match requested {
            Some(d) => Some(d),
            None => match settings_default {
                Some(d) => Some(d),
                None => workflow,
            },
        },
{
    match requested {
        Some(d) => Some(d),
        None => match settings_default {
            Some(d) => Some(d),
            None => workflow,
        },
    }
}

/// Checks the agent configuration and settles the parallelism, the number of iterations,
/// the approval of the golden plan, and which agents give feedback.
pub fn plan_goal(
    config: AgentConfig,
    request_max_parallel: Option<usize>,
    settings_max_parallel: Option<usize>,
    approve_golden_plan: bool,
) -> (r: Result<GoalPlan, AppError>)
    ensures
        match agent_config_problem(config) {
            Some(m) => r matches Err(e) && crate::errors::is_invalid_config(e, m),
            None => if goal_parallelism(
                request_max_parallel,
                settings_max_parallel,
                config.max_parallel_agents,
            ) == 0 {
                r matches Err(e) && crate::errors::is_invalid_config(
                    e,
                    "orchestration.max_parallel_agents must be greater than zero"@,
                )
            } else {
                r matches Ok(p) && goal_plan_of(
                    config,
                    request_max_parallel,
                    settings_max_parallel,
                    approve_golden_plan,
                    p,
                )
            },
        },
{
    let v = validate_agent_config(&config);
    match v {
        Err(e) => {
            return Err(e);
        },
        Ok(_) => {},
    }
    let max_parallel = match request_max_parallel {
        Some(n) => n,
        None => match settings_max_parallel {
            Some(n) => n,
            None => match config.max_parallel_agents {
                Some(n) => n,
                None => 4,
            },
        },
    };
    if max_parallel == 0 {
        return Err(
            AppError::InvalidConfig(
                owned("orchestration.max_parallel_agents must be greater than zero"),
            ),
        );
    }
    let max_iterations = match config.max_iterations {
        Some(n) => if n == 0 {
            1
        } else {
            n
        },
        None => 1,
    };
    let mode = match config.approval_mode {
        Some(m) => m,
        None => crate::agent::ApprovalMode::Auto,
    };
    let approved = crate::goal::ApprovalGate::new(mode, approve_golden_plan).approved();
    let ghost specs = config.specs@;
    let ghost fb = is_feedback_spec();
    let ghost mn = is_main_spec();
    let n = config.specs.len();
    let mut rest = config.specs;
    let mut main_specs: Vec<AgentSpec> = Vec::new();
    let mut feedback_specs: Vec<AgentSpec> = Vec::new();
    let mut k: usize = 0;
    while k < n
        invariant
            fb == is_feedback_spec(),
            mn == is_main_spec(),
            n == specs.len(),
            k <= n,
            rest@ == specs.subrange(k as int, n as int),
            main_specs@ == specs.take(k as int).filter(mn),
            feedback_specs@ == specs.take(k as int).filter(fb),
        decreases n - k,
    {
        assert(specs.take(k + 1).drop_last() =~= specs.take(k as int));
        assert(specs.take(k + 1).last() == specs[k as int]);
        proof {
            reveal(Seq::filter);
            reveal_strlit("feedback");
        }
        let spec = rest.remove(0);
        assert(spec == specs[k as int]);
        assert(rest@ =~= specs.subrange(k + 1, n as int));
        if eq_str(spec.output_contract.as_str(), "feedback") {
            feedback_specs.push(spec);
        } else {
            main_specs.push(spec);
        }
        k = k + 1;
    }
    assert(specs.take(n as int) =~= specs);
    Ok(GoalPlan { max_parallel, max_iterations, approved, main_specs, feedback_specs })
}

/// The artifact of the first golden plan among the outputs.
pub open spec fn first_golden_plan(outs: Seq<AgentOutput>) -> Option<Seq<char>>
    decreases outs.len(),
{
    if outs.len() == 0 {
        None
    } else if outs[0].output_contract@ == "golden_plan"@ {
        Some(outs[0].artifact_path@)
    } else {
        first_golden_plan(outs.drop_first())
    }
}

/// The feedback carried into the next iteration: what the feedback agents wrote when it says
/// something, otherwise the gates' own feedback.
pub open spec fn next_feedback(gate_feedback: Seq<char>, feedback_outputs: Option<Seq<AgentOutput>>) -> Seq<
    char,
> {
    match feedback_outputs {
        Some(fo) => {
            let generated = render_entries(output_entries(fo));
            if !spec_is_blank(generated) {
                generated
            } else {
                gate_feedback
            }
        },
        None => gate_feedback,
    }
}

/// What a goal run has gathered so far.
#[derive(Debug)]
pub struct GoalProgress {
    pub outputs: Vec<AgentOutput>,
    pub golden_plan_path: Option<String>,
    pub completed: bool,
    pub feedback: String,
    pub iterations: usize,
}

/// Whether a goal run goes on after iteration `iteration`, given whether it completed the goal.
pub open spec fn goal_goes_on(completed: bool, iteration: int, max_iterations: int) -> bool {
    !completed && iteration < max_iterations
}

/// Over the iterations of a goal run, numbered from one, each but the last followed by
/// another and the last by the end (whether each completed the goal): the run stops at the
/// first iteration that completes the goal, or after `max_iterations` of them.
pub proof fn lemma_goal_run_stops(max_iterations: int, completed: Seq<bool>)
    requires
        max_iterations >= 1,
        completed.len() >= 1,
        forall|i: int|
            0 <= i < completed.len() - 1 ==> goal_goes_on(
                #[trigger] completed[i],
                i + 1,
                max_iterations,
            ),
        !goal_goes_on(completed.last(), completed.len() as int, max_iterations),
    ensures
        completed.len() <= max_iterations,
        forall|i: int| 0 <= i < completed.len() - 1 ==> !(#[trigger] completed[i]),
        completed.last() || completed.len() == max_iterations,
{
    if completed.len() >= 2 {
        let k = completed.len() - 2;
        assert(goal_goes_on(completed[k], k + 1, max_iterations));
    }
}

impl GoalProgress {
    pub fn new() -> (g: Self)
        ensures
            g.outputs@.len() == 0,
            g.golden_plan_path is None,
            !g.completed,
            g.feedback@.len() == 0,
            g.iterations == 0,
    {
        GoalProgress {
            outputs: Vec::new(),
            golden_plan_path: None,
            completed: false,
            feedback: String::new(),
            iterations: 0,
        }
    }

    /// Records that the main graph of `iteration` ran; the first golden plan seen is kept.
    pub fn main_graph_done(&mut self, iteration: usize, outputs: &Vec<AgentOutput>)
        ensures
            final(self).iterations == iteration,
            opt_view_of(final(self).golden_plan_path) == if old(self).golden_plan_path is Some {
                opt_view_of(old(self).golden_plan_path)
            } else {
                first_golden_plan(outputs@)
            },
            final(self).outputs == old(self).outputs,
            final(self).completed == old(self).completed,
            final(self).feedback == old(self).feedback,
    {
        self.iterations = iteration;
        if self.golden_plan_path.is_none() {
            self.golden_plan_path = golden_plan_path(outputs);
        }
    }

    /// The run stops because the golden plan awaits approval.
    pub fn stop_for_approval(&mut self, outputs: Vec<AgentOutput>)
        ensures
            final(self).outputs@ == old(self).outputs@ + outputs@,
            final(self).feedback@ == "golden plan requires approval"@,
            final(self).completed == old(self).completed,
            final(self).iterations == old(self).iterations,
            final(self).golden_plan_path == old(self).golden_plan_path,
    {
        let mut more = outputs;
        self.outputs.append(&mut more);
        self.feedback = owned("golden plan requires approval");
    }

    /// Whether another iteration runs: the goal is not complete and fewer than
    /// `max_iterations` have run.
    pub fn runs_again(&self, max_iterations: usize) -> (b: bool)
        ensures
            b == goal_goes_on(self.completed, self.iterations as int, max_iterations as int),
    {
        !self.completed && self.iterations < max_iterations
    }

    /// Whether the feedback agents run after the gates: when the goal is not complete and
    /// there are such agents.
    pub fn wants_feedback_graph(report: &CompletionReport, feedback_agents: usize) -> (b: bool)
        ensures
            b == (!report.complete && feedback_agents > 0),
    {
        !report.complete && feedback_agents > 0
    }

    /// Records an iteration's gates and outputs, the feedback agents' outputs when they ran.
    pub fn iteration_done(
        &mut self,
        report: &CompletionReport,
        iteration_outputs: Vec<AgentOutput>,
        feedback_outputs: Option<Vec<AgentOutput>>,
    )
        ensures
            final(self).completed == report.complete,
            final(self).feedback@ == next_feedback(
                report.feedback@,
                match feedback_outputs {
                    Some(f) => Some(f@),
                    None => None,
                },
            ),
            final(self).outputs@ == old(self).outputs@ + iteration_outputs@ + match feedback_outputs {
                Some(f) => f@,
                None => Seq::empty(),
            },
            final(self).iterations == old(self).iterations,
            final(self).golden_plan_path == old(self).golden_plan_path,
    {
        self.completed = report.complete;
        let mut next = owned(report.feedback.as_str());
        let mut more = iteration_outputs;
        self.outputs.append(&mut more);
        match feedback_outputs {
            Some(fo) => {
                let generated = InputBundle::from_outputs(&fo).render();
                if !is_blank(generated.as_str()) {
                    next = generated;
                }
                let mut extra = fo;
                self.outputs.append(&mut extra);
            },
            None => {},
        }
        self.feedback = next;
    }

    /// The summary of the run; feedback is kept only when the goal is not complete and the
    /// feedback says something.
    pub fn into_summary(self, goal: String, artifact_root: String, approved: bool, json: bool) -> (s: GoalSummary)
        ensures
            s.goal == goal,
            s.artifact_root == artifact_root,
            s.approved == approved,
            s.completed == self.completed,
            s.iterations == self.iterations,
            opt_view_of(s.feedback) == if self.completed || spec_is_blank(self.feedback@) {
                None
            } else {
                Some(self.feedback@)
            },
            s.golden_plan_path == self.golden_plan_path,
            s.outputs == self.outputs,
            s.json == json,
    {
        let feedback = if self.completed || is_blank(self.feedback.as_str()) {
            None
        } else {
            Some(self.feedback)
        };
        GoalSummary {
            goal,
            artifact_root,
            approved,
            completed: self.completed,
            iterations: self.iterations,
            feedback,
            golden_plan_path: self.golden_plan_path,
            outputs: self.outputs,
            json,
        }
    }
}

pub open spec fn opt_view_of(o: Option<String>) -> Option<Seq<char>> {
    crate::config::opt_view(o)
}

/// The artifact of the first golden plan among the outputs.
pub fn golden_plan_path(outputs: &Vec<AgentOutput>) -> (r: Option<String>)
    ensures
        opt_view_of(r) == first_golden_plan(outputs@),
{
    let mut i: usize = 0;
    assert(outputs@.subrange(0, outputs@.len() as int) =~= outputs@);
    while i < outputs.len()
        invariant
            i <= outputs@.len(),
            first_golden_plan(outputs@) == first_golden_plan(
                outputs@.subrange(i as int, outputs@.len() as int),
            ),
        decreases outputs.len() - i,
    {
        let ghost t = outputs@.subrange(i as int, outputs@.len() as int);
        assert(t[0] == outputs@[i as int]);
        assert(t.drop_first() =~= outputs@.subrange(i + 1, outputs@.len() as int));
        proof {
            reveal_strlit("golden_plan");
        }
        if eq_str(outputs[i].output_contract.as_str(), "golden_plan") {
            return Some(outputs[i].artifact_path.clone());
        }
        i = i + 1;
    }
    None
}

proof fn lemma_first_ready_from(
    pending: Seq<(usize, AgentSpec)>,
    completed: Seq<Seq<char>>,
    running: Seq<Seq<char>>,
    i: int,
)
    requires
        0 <= i,
    ensures
        first_ready_from(pending, completed, running, i) <= pending.len(),
        first_ready_from(pending, completed, running, i) < pending.len() ==> {
            let p = first_ready_from(pending, completed, running, i);
            &&& i <= p
            &&& deps_done(pending[p].1, completed)
            &&& resources_free(pending[p].1, running)
        },
    decreases pending.len() - i,
{
    if i < pending.len() && !(deps_done(pending[i].1, completed) && resources_free(
        pending[i].1,
        running,
    )) {
        lemma_first_ready_from(pending, completed, running, i + 1);
    }
}

/// An agent starts only when fewer than `max_parallel` run, all its dependencies have
/// finished and none of its resources is held; so no more than `max_parallel` agents run
/// at once.
pub proof fn lemma_started_agents_are_ready(
    old: GraphRunState,
    new: GraphRunState,
    r: Option<(usize, AgentSpec)>,
)
    requires
        start_outcome(old, new, r),
        old.running <= old.max_parallel,
    ensures
        new.running <= new.max_parallel,
        r matches Some(e) ==> old.running < old.max_parallel && deps_done(
            e.1,
            old.completed.deep_view(),
        ) && resources_free(e.1, old.running_resources.deep_view()),
{
    lemma_first_ready_from(
        old.pending@,
        old.completed.deep_view(),
        old.running_resources.deep_view(),
        0,
    );
}

/// Recording a finished agent makes it count as completed, releases its resources and
/// keeps its output.
pub proof fn lemma_finished_agents_complete(
    old: GraphRunState,
    new: GraphRunState,
    order: usize,
    output: AgentOutput,
    resources: Seq<Seq<char>>,
)
    requires
        finish_outcome(old, new, order, output, resources),
    ensures
        new.completed.deep_view().contains(output.agent_id@),
        forall|x: Seq<char>| resources.contains(x) ==> !new.running_resources.deep_view().contains(x),
        new.finished@.contains((order, output)),
{
    assert(new.completed.deep_view().to_set().contains(output.agent_id@));
    assert forall|x: Seq<char>| resources.contains(x) implies !new.running_resources.deep_view().contains(
        x,
    ) by {
        assert(!new.running_resources.deep_view().to_set().contains(x));
    }
    let k = leading_not_after(old.finished@, order);
    lemma_leading_bounds(old.finished@, order);
    assert(new.finished@[k] == (order, output));
}

proof fn lemma_leading_bounds(s: Seq<(usize, AgentOutput)>, k: usize)
    ensures
        0 <= leading_not_after(s, k) <= s.len(),
    decreases s.len(),
{
    if s.len() > 0 && s[0].0 <= k {
        lemma_leading_bounds(s.drop_first(), k);
    }
}

} // verus!
