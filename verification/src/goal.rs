//! A goal request, the approval gate of the golden plan, and the summary of a goal run.
use vstd::prelude::*;

use crate::agent::{AgentOutput, ApprovalMode};
use crate::config::opt_view;
use crate::settings::Settings;
use crate::text::{cat, decimal, decimal_spec, owned};

verus! {

/// Whether the golden plan may be acted on.
#[derive(Debug, Clone, Copy)]
pub struct ApprovalGate {
    pub mode: ApprovalMode,
    pub approved_by_cli: bool,
}

impl ApprovalGate {
    pub fn new(mode: ApprovalMode, approved_by_cli: bool) -> (g: Self)
        ensures
            g.mode == mode,
            g.approved_by_cli == approved_by_cli,
    {
        ApprovalGate { mode, approved_by_cli }
    }

    /// Automatic approval always passes; manual approval passes when given on the command
    /// line.
    pub fn approved(self) -> (b: bool)
        ensures
            b == match self.mode {
                ApprovalMode::Auto => true,
                ApprovalMode::Manual => self.approved_by_cli,
            },
    {
        match self.mode {
            ApprovalMode::Auto => true,
            ApprovalMode::Manual => self.approved_by_cli,
        }
    }
}

#[derive(Clone, Debug)]
pub struct GoalRequest {
    pub goal: String,
    pub config: Option<String>,
    pub settings: Settings,
    pub instruction_dir: Option<String>,
    pub artifact_dir: Option<String>,
    pub max_parallel_agents: Option<usize>,
    pub approve_golden_plan: bool,
    pub json: bool,
}

#[derive(Clone, Debug)]
pub struct GoalSummary {
    pub goal: String,
    pub artifact_root: String,
    pub approved: bool,
    pub completed: bool,
    pub iterations: usize,
    pub feedback: Option<String>,
    pub golden_plan_path: Option<String>,
    pub outputs: Vec<AgentOutput>,
    pub json: bool,
}

pub open spec fn bool_text(b: bool) -> Seq<char> {
    if b {
        "true"@
    } else {
        "false"@
    }
}

pub open spec fn output_line(o: AgentOutput) -> Seq<char> {
    o.agent_id@ + " "@ + o.output_contract@ + ": "@ + o.artifact_path@ + "\n"@
}

pub open spec fn output_lines(outs: Seq<AgentOutput>) -> Seq<char>
    decreases outs.len(),
{
    if outs.len() == 0 {
        Seq::empty()
    } else {
        output_lines(outs.drop_last()) + output_line(outs.last())
    }
}

pub open spec fn optional_line(label: Seq<char>, value: Option<Seq<char>>) -> Seq<char> {
    match value {
        Some(v) => label + v + "\n"@,
        None => Seq::empty(),
    }
}

impl GoalSummary {
    pub open spec fn spec_exit_code(self) -> u8 {
        if self.completed {
            0
        } else {
            1
        }
    }

    /// 0 when the goal was completed, 1 otherwise.
    pub fn exit_code(&self) -> (c: u8)
        ensures
            c == self.spec_exit_code(),
    {
        if self.completed {
            0
        } else {
            1
        }
    }

    pub open spec fn rendered(self) -> Seq<char> {
        "goal: "@ + self.goal@ + "\n"@ + "artifact_root: "@ + self.artifact_root@ + "\n"@
            + "approved: "@ + bool_text(self.approved) + "\n"@ + "completed: "@ + bool_text(
            self.completed,
        ) + "\n"@ + "iterations: "@ + decimal_spec(self.iterations as nat) + "\n"@
            + optional_line("feedback: "@, opt_view(self.feedback)) + optional_line(
            "golden_plan: "@,
            opt_view(self.golden_plan_path),
        ) + output_lines(self.outputs@) + "exit_code="@ + decimal_spec(
            self.spec_exit_code() as nat,
        )
    }

    /// The summary as printed: one `name: value` line per field, one line per output, then
    /// the exit code.
    pub fn render(&self) -> (s: String)
        ensures
            s@ == self.rendered(),
    {
        let mut s = owned("goal: ");
        s = cat(s.as_str(), self.goal.as_str());
        s = cat(s.as_str(), "\n");
        s = cat(s.as_str(), "artifact_root: ");
        s = cat(s.as_str(), self.artifact_root.as_str());
        s = cat(s.as_str(), "\n");
        s = cat(s.as_str(), "approved: ");
        s = cat(s.as_str(), if self.approved { "true" } else { "false" });
        s = cat(s.as_str(), "\n");
        s = cat(s.as_str(), "completed: ");
        s = cat(s.as_str(), if self.completed { "true" } else { "false" });
        s = cat(s.as_str(), "\n");
        s = cat(s.as_str(), "iterations: ");
        let n = decimal(self.iterations as u64);
        s = cat(s.as_str(), n.as_str());
        s = cat(s.as_str(), "\n");
        let ghost before_feedback = s@;
        match &self.feedback {
            Some(f) => {
                s = cat(s.as_str(), "feedback: ");
                s = cat(s.as_str(), f.as_str());
                s = cat(s.as_str(), "\n");
            },
            None => {},
        }
        assert(s@ =~= before_feedback + optional_line("feedback: "@, opt_view(self.feedback)));
        let ghost before_plan = s@;
        match &self.golden_plan_path {
            Some(p) => {
                s = cat(s.as_str(), "golden_plan: ");
                s = cat(s.as_str(), p.as_str());
                s = cat(s.as_str(), "\n");
            },
            None => {},
        }
        assert(s@ =~= before_plan + optional_line("golden_plan: "@, opt_view(self.golden_plan_path)));
        let ghost head = s@;
        let mut i: usize = 0;
        while i < self.outputs.len()
            invariant
                i <= self.outputs@.len(),
                s@ =~= head + output_lines(self.outputs@.take(i as int)),
            decreases self.outputs.len() - i,
        {
            let o = &self.outputs[i];
            assert(self.outputs@.take(i + 1).drop_last() =~= self.outputs@.take(i as int));
            s = cat(s.as_str(), o.agent_id.as_str());
            s = cat(s.as_str(), " ");
            s = cat(s.as_str(), o.output_contract.as_str());
            s = cat(s.as_str(), ": ");
            s = cat(s.as_str(), o.artifact_path.as_str());
            s = cat(s.as_str(), "\n");
            i = i + 1;
        }
        assert(self.outputs@.take(self.outputs@.len() as int) =~= self.outputs@);
        s = cat(s.as_str(), "exit_code=");
        let c = decimal(self.exit_code() as u64);
        s = cat(s.as_str(), c.as_str());
        s
    }
}

} // verus!
