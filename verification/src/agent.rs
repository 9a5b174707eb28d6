//! Agent specifications, inputs and outputs of the goal workflow.
use vstd::prelude::*;

use crate::text::owned;

verus! {

#[derive(Debug, Clone, Copy, PartialEq, Eq, Structural)]
pub enum ApprovalMode {
    Manual,
    Auto,
}

#[derive(Debug, Clone, Copy, PartialEq, Eq, Structural, PartialOrd, Ord, Hash)]
pub enum NodeKind {
    Agent,
    Branch,
    Gate,
    Aggregate,
    Approval,
    Feedback,
    LoopFeedback,
}

#[derive(Clone, Debug)]
pub struct AgentConfig {
    pub instruction_dir: Option<String>,
    pub artifact_dir: Option<String>,
    pub max_parallel_agents: Option<usize>,
    pub min_successful_planners: Option<usize>,
    pub min_successful_critics: Option<usize>,
    pub max_iterations: Option<usize>,
    pub approval_mode: Option<ApprovalMode>,
    pub specs: Vec<AgentSpec>,
}

#[derive(Clone, Debug)]
pub struct AgentSpec {
    pub id: String,
    pub kind: NodeKind,
    pub output_contract: String,
    pub artifact_dir: Option<String>,
    pub phase_label: Option<String>,
    pub instruction: Option<String>,
    pub command: String,
    pub args: Vec<String>,
    pub input_sources: Vec<String>,
    pub depends_on: Vec<String>,
    pub resources: Vec<String>,
    pub timeout_secs: Option<u64>,
    pub retries: u32,
    pub retry_delay_ms: Option<u64>,
}

#[derive(Clone, Debug)]
pub struct AgentInput {
    pub goal: String,
    pub context: String,
}

#[derive(Debug)]
pub struct AgentOutput {
    pub agent_id: String,
    pub kind: NodeKind,
    pub output_contract: String,
    pub phase_label: Option<String>,
    pub artifact_dir: Option<String>,
    pub content: String,
    pub artifact_path: String,
}

impl Clone for AgentOutput {
    fn clone(&self) -> (r: Self)
        ensures
            r == *self,
    {
        AgentOutput {
            agent_id: self.agent_id.clone(),
            kind: self.kind,
            output_contract: self.output_contract.clone(),
            phase_label: self.phase_label.clone(),
            artifact_dir: self.artifact_dir.clone(),
            content: self.content.clone(),
            artifact_path: self.artifact_path.clone(),
        }
    }
}

/// The command an agent node runs when its configuration names none.
pub fn default_agent_command() -> (r: String)
    ensures
        r@ == "copilot"@,
{
    owned("copilot")
}

} // verus!
