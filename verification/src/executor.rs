//! Running one command: how many attempts it gets, when to try again, and how each way a
//! process can end becomes a result. Processes themselves are run by the caller.
use vstd::prelude::*;

use crate::config::opt_view;
use crate::model::{CommandOutcome, CommandResult};
use crate::text::{cat, decimal, decimal_spec, owned};

verus! {

/// Runs the commands of a plan.
#[derive(Debug, Clone, Copy, Default)]
pub struct CommandExecutor;

/// How a process ended, as the caller saw it.
pub enum WaitOutcome {
    /// It exited; `status` is how the exit status displays.
    Exited { success: bool, code: Option<i32>, status: String },
    /// Waiting for it failed.
    Io(String),
    /// It ran past its timeout; the message says why it ended.
    TimedOut(String),
    /// A stop was requested; the error of killing it, if any.
    Cancelled(Option<String>),
}

/// What follows a failed attempt.
#[derive(Debug, Clone, Copy, PartialEq, Eq, Structural)]
pub enum NextStep {
    /// The attempt's result is final.
    Finish,
    /// Try again, after waiting the delay when there is one.
    Retry,
}

/// Attempts a command gets: one more than its retries, saturating.
pub fn max_attempts(retries: u32) -> (n: u32)
    ensures
        n == if retries == u32::MAX {
            u32::MAX
        } else {
            (retries + 1) as u32
        },
{
    retries.saturating_add(1)
}

/// What follows attempt number `attempt` of at most `max_attempts`.
pub open spec fn next_step(attempt: int, max_attempts: int, succeeded: bool, stop_requested: bool) -> NextStep {
    if succeeded || stop_requested || attempt >= max_attempts {
        NextStep::Finish
    } else {
        NextStep::Retry
    }
}

/// After an attempt: a success, a requested stop or the last attempt ends the command;
/// otherwise it is tried again.
pub fn after_attempt(attempt: u32, max_attempts: u32, succeeded: bool, stop_requested: bool) -> (s: NextStep)
    ensures
        s == next_step(attempt as int, max_attempts as int, succeeded, stop_requested),
{
    if succeeded || stop_requested || attempt >= max_attempts {
        NextStep::Finish
    } else {
        NextStep::Retry
    }
}

/// Over the attempts of one command, numbered from one, each but the last followed by a
/// retry and the last by the end (`(succeeded, stop requested)` for each): a command gets at
/// most `max_attempts` attempts, and one whose last attempt fails with no stop requested has
/// used them all.
pub proof fn lemma_attempts_bounded(max_attempts: int, attempts: Seq<(bool, bool)>)
    requires
        max_attempts >= 1,
        attempts.len() >= 1,
        forall|i: int|
            0 <= i < attempts.len() - 1 ==> next_step(
                i + 1,
                max_attempts,
                (#[trigger] attempts[i]).0,
                attempts[i].1,
            ) == NextStep::Retry,
        next_step(attempts.len() as int, max_attempts, attempts.last().0, attempts.last().1)
            == NextStep::Finish,
    ensures
        attempts.len() <= max_attempts,
        !attempts.last().0 && !attempts.last().1 ==> attempts.len() == max_attempts,
        forall|i: int| 0 <= i < attempts.len() - 1 ==> !(#[trigger] attempts[i]).0,
{
    if attempts.len() >= 2 {
        let k = attempts.len() - 2;
        assert(next_step(k + 1, max_attempts, attempts[k].0, attempts[k].1) == NextStep::Retry);
    }
}

/// A command stopped on request.
pub fn cancelled_result(
    id: &String,
    attempt: u32,
    stdout: String,
    stderr: String,
    kill_error: Option<String>,
) -> (r: CommandResult)
    ensures
        r.id == id,
        r.outcome == CommandOutcome::Cancelled,
        r.exit_code is None,
        r.attempts == attempt,
        r.stdout == stdout,
        r.stderr == stderr,
        opt_view(r.error) == Some(
            match kill_error {
                Some(e) => e@,
                None => "cancelled by user request"@,
            },
        ),
{
    let error = match kill_error {
        Some(e) => e,
        None => owned("cancelled by user request"),
    };
    CommandResult {
        id: id.clone(),
        outcome: CommandOutcome::Cancelled,
        exit_code: None,
        attempts: attempt,
        stdout,
        stderr,
        error: Some(error),
    }
}

/// A command whose process could not be started.
pub fn spawn_failed_result(id: &String, attempt: u32, error: String) -> (r: CommandResult)
    ensures
        r.id == id,
        r.outcome == CommandOutcome::SpawnFailed,
        r.exit_code is None,
        r.attempts == attempt,
        r.stdout@.len() == 0,
        r.stderr@.len() == 0,
        r.error == Some(error),
{
    CommandResult {
        id: id.clone(),
        outcome: CommandOutcome::SpawnFailed,
        exit_code: None,
        attempts: attempt,
        stdout: String::new(),
        stderr: String::new(),
        error: Some(error),
    }
}

pub open spec fn timeout_text(kill_error: Option<Seq<char>>, timeout_secs: Option<u64>) -> Seq<char> {
    match kill_error {
        Some(e) => e,
        None => "timed out after "@ + decimal_spec(
            match timeout_secs {
                Some(t) => t as nat,
                None => 0,
            },
        ) + " seconds"@,
    }
}

/// Why a timed-out command ended: the error of killing it, or the timeout.
pub fn timeout_message(kill_error: Option<String>, timeout_secs: Option<u64>) -> (m: String)
    ensures
        m@ == timeout_text(opt_view(kill_error), timeout_secs),
{
    match kill_error {
        Some(e) => e,
        None => {
            let secs = match timeout_secs {
                Some(t) => t,
                None => 0,
            };
            let n = decimal(secs);
            let head = cat("timed out after ", n.as_str());
            cat(head.as_str(), " seconds")
        },
    }
}

/// The result of an attempt, from how its process ended and what it printed.
pub fn result_of_wait(
    id: &String,
    attempt: u32,
    outcome: WaitOutcome,
    stdout: String,
    stderr: String,
) -> (r: CommandResult)
    ensures
        r.id == id,
        r.attempts == attempt,
        r.stdout == stdout,
        r.stderr == stderr,
        match outcome {
            WaitOutcome::Exited { success, code, status } => {
                &&& r.exit_code == code
                &&& success ==> r.outcome == CommandOutcome::Success && r.error is None
                &&& !success ==> r.outcome == CommandOutcome::Failed && opt_view(r.error) == Some(
                    "process exited with status "@ + status@,
                )
            },
            WaitOutcome::Io(e) => r.outcome == CommandOutcome::Failed && r.exit_code is None
                && r.error == Some(e),
            WaitOutcome::TimedOut(e) => r.outcome == CommandOutcome::TimedOut && r.exit_code is None
                && r.error == Some(e),
            WaitOutcome::Cancelled(k) => r.outcome == CommandOutcome::Cancelled && r.exit_code
                is None && opt_view(r.error) == Some(
                match k {
                    Some(e) => e@,
                    None => "cancelled by user request"@,
                },
            ),
        },
{
    match outcome {
        WaitOutcome::Exited { success, code, status } => {
            if success {
                CommandResult {
                    id: id.clone(),
                    outcome: CommandOutcome::Success,
                    exit_code: code,
                    attempts: attempt,
                    stdout,
                    stderr,
                    error: None,
                }
            } else {
                CommandResult {
                    id: id.clone(),
                    outcome: CommandOutcome::Failed,
                    exit_code: code,
                    attempts: attempt,
                    stdout,
                    stderr,
                    error: Some(cat("process exited with status ", status.as_str())),
                }
            }
        },
        WaitOutcome::Io(e) => CommandResult {
            id: id.clone(),
            outcome: CommandOutcome::Failed,
            exit_code: None,
            attempts: attempt,
            stdout,
            stderr,
            error: Some(e),
        },
        WaitOutcome::TimedOut(e) => CommandResult {
            id: id.clone(),
            outcome: CommandOutcome::TimedOut,
            exit_code: None,
            attempts: attempt,
            stdout,
            stderr,
            error: Some(e),
        },
        WaitOutcome::Cancelled(k) => cancelled_result(id, attempt, stdout, stderr, k),
    }
}

/// A captured output line is kept with its line break.
pub fn capture_line(captured: &mut String, line: &str)
    ensures
        final(captured)@ == old(captured)@ + line@ + "\n"@,
{
    let with_line = cat(captured.as_str(), line);
    *captured = cat(with_line.as_str(), "\n");
}

} // verus!
