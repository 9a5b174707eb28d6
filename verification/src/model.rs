//! Commands to run, their outcomes, and the summary of a run.
use vstd::prelude::*;

use crate::text::{cat, decimal, decimal_spec, owned, signed_decimal, signed_decimal_spec};

verus! {

/// A command of an execution plan. The output channel and the timeout as a duration are
/// attached by the runner.
#[derive(Clone, Debug)]
pub struct CommandSpec {
    pub id: String,
    pub program: String,
    pub args: Vec<String>,
    pub depends_on: Vec<String>,
    pub env: Vec<(String, String)>,
    pub cwd: Option<String>,
    pub timeout_secs: Option<u64>,
    pub retries: u32,
    pub retry_delay_ms: Option<u64>,
    pub output_label: Option<String>,
    pub output_phase: Option<String>,
    pub output_model: Option<String>,
}

#[derive(Clone, Debug)]
pub struct ExecutionPlan {
    pub max_concurrency: usize,
    pub continue_on_error: bool,
    pub commands: Vec<CommandSpec>,
}

#[derive(Debug, Clone, Copy, PartialEq, Eq, Structural)]
pub enum CommandOutcome {
    Success,
    Failed,
    TimedOut,
    SpawnFailed,
    Cancelled,
    Skipped,
}

#[derive(Debug)]
pub struct CommandResult {
    pub id: String,
    pub outcome: CommandOutcome,
    pub exit_code: Option<i32>,
    pub attempts: u32,
    pub stdout: String,
    pub stderr: String,
    pub error: Option<String>,
}

#[derive(Clone, Debug)]
pub struct RunSummary {
    pub results: Vec<CommandResult>,
}

impl Clone for CommandResult {
    fn clone(&self) -> (r: Self)
        ensures
            r == *self,
    {
        CommandResult {
            id: self.id.clone(),
            outcome: self.outcome,
            exit_code: self.exit_code,
            attempts: self.attempts,
            stdout: self.stdout.clone(),
            stderr: self.stderr.clone(),
            error: match &self.error {
                Some(e) => Some(e.clone()),
                None => None,
            },
        }
    }
}

pub open spec fn result_failed(r: CommandResult) -> bool {
    r.outcome != CommandOutcome::Success
}

impl CommandResult {
    pub fn succeeded(&self) -> (b: bool)
        ensures
            b == (self.outcome == CommandOutcome::Success),
    {
        self.outcome == CommandOutcome::Success
    }

    pub fn failed(&self) -> (b: bool)
        ensures
            b == result_failed(*self),
    {
        !self.succeeded()
    }

    /// A command that was not run, with the reason.
    pub fn skipped(id: String, reason: String) -> (r: Self)
        ensures
            r.id == id,
            r.outcome == CommandOutcome::Skipped,
            r.exit_code is None,
            r.attempts == 0,
            r.stdout@.len() == 0,
            r.stderr@.len() == 0,
            r.error == Some(reason),
    {
        CommandResult {
            id,
            outcome: CommandOutcome::Skipped,
            exit_code: None,
            attempts: 0,
            stdout: String::new(),
            stderr: String::new(),
            error: Some(reason),
        }
    }

    /// A command stopped because an earlier one failed.
    pub fn cancelled(id: String) -> (r: Self)
        ensures
            r.id == id,
            r.outcome == CommandOutcome::Cancelled,
            r.exit_code is None,
            r.attempts == 0,
            r.stdout@.len() == 0,
            r.stderr@.len() == 0,
            r.error matches Some(e) && e@ == "cancelled after earlier failure"@,
    {
        CommandResult {
            id,
            outcome: CommandOutcome::Cancelled,
            exit_code: None,
            attempts: 0,
            stdout: String::new(),
            stderr: String::new(),
            error: Some(owned("cancelled after earlier failure")),
        }
    }
}

/// The name `Debug` gives an outcome.
pub open spec fn outcome_name(o: CommandOutcome) -> Seq<char> {
    match o {
        CommandOutcome::Success => "Success"@,
        CommandOutcome::Failed => "Failed"@,
        CommandOutcome::TimedOut => "TimedOut"@,
        CommandOutcome::SpawnFailed => "SpawnFailed"@,
        CommandOutcome::Cancelled => "Cancelled"@,
        CommandOutcome::Skipped => "Skipped"@,
    }
}

pub fn outcome_label(o: CommandOutcome) -> (r: String)
    ensures
        r@ == outcome_name(o),
{
    match o {
        CommandOutcome::Success => owned("Success"),
        CommandOutcome::Failed => owned("Failed"),
        CommandOutcome::TimedOut => owned("TimedOut"),
        CommandOutcome::SpawnFailed => owned("SpawnFailed"),
        CommandOutcome::Cancelled => owned("Cancelled"),
        CommandOutcome::Skipped => owned("Skipped"),
    }
}

/// An optional exit code as `Debug` writes it.
pub open spec fn exit_code_text(c: Option<i32>) -> Seq<char> {
    match c {
        Some(v) => "Some("@ + signed_decimal_spec(v as int) + ")"@,
        None => "None"@,
    }
}

/// The lines that describe one result.
pub open spec fn result_text(r: CommandResult) -> Seq<char> {
    r.id@ + ": "@ + outcome_name(r.outcome) + " attempts="@ + decimal_spec(r.attempts as nat)
        + " exit_code="@ + exit_code_text(r.exit_code) + "\n"@ + match r.error {
        Some(e) => "  error: "@ + e@ + "\n"@,
        None => Seq::empty(),
    }
}

pub open spec fn results_text(rs: Seq<CommandResult>) -> Seq<char>
    decreases rs.len(),
{
    if rs.len() == 0 {
        Seq::empty()
    } else {
        results_text(rs.drop_last()) + result_text(rs.last())
    }
}

pub open spec fn any_failed(rs: Seq<CommandResult>) -> bool {
    exists|i: int| 0 <= i < rs.len() && result_failed(#[trigger] rs[i])
}

fn result_line(r: &CommandResult) -> (s: String)
    ensures
        s@ == result_text(*r),
{
    let mut out = owned(r.id.as_str());
    out.append(": ");
    let o = outcome_label(r.outcome);
    out.append(o.as_str());
    out.append(" attempts=");
    let a = decimal(r.attempts as u64);
    out.append(a.as_str());
    out.append(" exit_code=");
    let code_text: String = match r.exit_code {
        Some(v) => {
            let d = signed_decimal(v as i64);
            let t = cat("Some(", d.as_str());
            cat(t.as_str(), ")")
        },
        None => owned("None"),
    };
    out.append(code_text.as_str());
    out.append("\n");
    let ghost head = out@;
    match &r.error {
        Some(e) => {
            out.append("  error: ");
            out.append(e.as_str());
            out.append("\n");
        },
        None => {},
    }
    assert(out@ =~= result_text(*r));
    out
}

impl RunSummary {
    /// 1 when any command did not succeed, else 0.
    pub fn exit_code(&self) -> (c: u8)
        ensures
            c == (if any_failed(self.results@) {
                1u8
            } else {
                0u8
            }),
    {
        let mut i: usize = 0;
        while i < self.results.len()
            invariant
                i <= self.results@.len(),
                forall|j: int| 0 <= j < i ==> !result_failed(#[trigger] self.results@[j]),
            decreases self.results.len() - i,
        {
            if self.results[i].failed() {
                return 1;
            }
            i = i + 1;
        }
        0
    }

    /// The text the summary displays: a line per result (and its error), then the exit code.
    pub fn render(&self) -> (s: String)
        ensures
            s@ == results_text(self.results@) + "exit_code="@ + decimal_spec(
                (if any_failed(self.results@) {
                    1nat
                } else {
                    0nat
                }),
            ),
    {
        let mut out = String::new();
        let mut i: usize = 0;
        while i < self.results.len()
            invariant
                i <= self.results@.len(),
                out@ == results_text(self.results@.take(i as int)),
            decreases self.results.len() - i,
        {
            let t = result_line(&self.results[i]);
            out.append(t.as_str());
            proof {
                assert(self.results@.take(i + 1).drop_last() =~= self.results@.take(i as int));
                assert(self.results@.take(i + 1).last() == self.results@[i as int]);
            }
            assert(out@ =~= results_text(self.results@.take(i + 1)));
            i = i + 1;
        }
        assert(self.results@.take(i as int) =~= self.results@);
        let code = self.exit_code();
        out.append("exit_code=");
        let d = decimal(code as u64);
        out.append(d.as_str());
        out
    }
}

} // verus!
