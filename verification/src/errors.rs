//! The library's error type; I/O causes are carried as their messages.
use vstd::prelude::*;

use crate::text::cat;

verus! {

#[derive(Debug)]
pub enum AppError {
    ReadConfig { path: String, source: String },
    ParseConfig { path: String, message: String },
    ReadSettings { path: String, source: String },
    WriteSettings { path: String, source: String },
    ParseSettings { path: String, message: String },
    InvalidConfig(String),
    InvalidGoal(String),
    AgentFailed { agent_id: String, message: String },
    ReadGoal { path: String, source: String },
    ReadInstruction { path: String, source: String },
    WriteArtifact { path: String, source: String },
    Logging(String),
    Json(String),
}

/// `e` is an invalid-config error whose message is `m`.
pub open spec fn is_invalid_config(e: AppError, m: Seq<char>) -> bool {
    e matches AppError::InvalidConfig(s) && s@ == m
}

/// `e` is an invalid-goal error whose message is `m`.
pub open spec fn is_invalid_goal(e: AppError, m: Seq<char>) -> bool {
    e matches AppError::InvalidGoal(s) && s@ == m
}

/// `r` reports the outcome `check` of a validation: `Ok` when there is no problem, otherwise the
/// invalid-config error carrying the problem's message.
pub open spec fn reports(r: Result<(), AppError>, check: Option<Seq<char>>) -> bool {
    match check {
        None => r is Ok,
        Some(m) => r matches Err(e) && is_invalid_config(e, m),
    }
}

/// The first problem among the items `lo..hi`, each of which reports its own problem or none.
pub open spec fn first_problem(f: spec_fn(int) -> Option<Seq<char>>, lo: int, hi: int) -> Option<
    Seq<char>,
>
    decreases hi - lo,
{
    if lo >= hi {
        None
    } else {
        match f(lo) {
            Some(m) => Some(m),
            None => first_problem(f, lo + 1, hi),
        }
    }
}

/// Items before `k` having no problem, the first problem from `lo` is the first from `k`.
pub proof fn lemma_first_problem_skip(f: spec_fn(int) -> Option<Seq<char>>, lo: int, k: int, hi: int)
    requires
        lo <= k <= hi,
        forall|j: int| lo <= j < k ==> (#[trigger] f(j)) is None,
    ensures
        first_problem(f, lo, hi) == first_problem(f, k, hi),
    decreases k - lo,
{
    if lo < k {
        lemma_first_problem_skip(f, lo + 1, k, hi);
    }
}

/// The first problem is `None` exactly when no item has one.
pub proof fn lemma_first_problem_none(f: spec_fn(int) -> Option<Seq<char>>, lo: int, hi: int)
    ensures
        first_problem(f, lo, hi) is None <==> forall|j: int| lo <= j < hi ==> (#[trigger] f(j)) is None,
    decreases hi - lo,
{
    if lo < hi {
        lemma_first_problem_none(f, lo + 1, hi);
    }
}

impl AppError {
    /// The text that the error displays.
    pub fn message(&self) -> (m: String)
        ensures
            match self {
                AppError::ReadConfig { path, source } => m@ == "failed to read config `"@ + path@
                    + "`: "@ + source@,
                AppError::ParseConfig { path, message } => m@ == "failed to parse config `"@
                    + path@ + "`: "@ + message@,
                AppError::ReadSettings { path, source } => m@ == "failed to read settings `"@
                    + path@ + "`: "@ + source@,
                AppError::WriteSettings { path, source } => m@ == "failed to write settings `"@
                    + path@ + "`: "@ + source@,
                AppError::ParseSettings { path, message } => m@ == "failed to parse settings `"@
                    + path@ + "`: "@ + message@,
                AppError::InvalidConfig(s) => m@ == "invalid config: "@ + s@,
                AppError::InvalidGoal(s) => m@ == "invalid goal request: "@ + s@,
                AppError::AgentFailed { agent_id, message } => m@ == "agent `"@ + agent_id@
                    + "` failed: "@ + message@,
                AppError::ReadGoal { path, source } => m@ == "failed to read goal `"@ + path@
                    + "`: "@ + source@,
                AppError::ReadInstruction { path, source } => m@
                    == "failed to read instruction `"@ + path@ + "`: "@ + source@,
                AppError::WriteArtifact { path, source } => m@ == "failed to write artifact `"@
                    + path@ + "`: "@ + source@,
                AppError::Logging(s) => m@ == "failed to initialize logging: "@ + s@,
                AppError::Json(s) => m@ == "failed to serialize JSON output: "@ + s@,
            },
    {
        match self {
            AppError::ReadConfig { path, source } => quote3("failed to read config `", path, source),
            AppError::ParseConfig { path, message } => quote3(
                "failed to parse config `",
                path,
                message,
            ),
            AppError::ReadSettings { path, source } => quote3(
                "failed to read settings `",
                path,
                source,
            ),
            AppError::WriteSettings { path, source } => quote3(
                "failed to write settings `",
                path,
                source,
            ),
            AppError::ParseSettings { path, message } => quote3(
                "failed to parse settings `",
                path,
                message,
            ),
            AppError::InvalidConfig(s) => cat("invalid config: ", s.as_str()),
            AppError::InvalidGoal(s) => cat("invalid goal request: ", s.as_str()),
            AppError::AgentFailed { agent_id, message } => {
                let a = cat("agent `", agent_id.as_str());
                let b = cat(a.as_str(), "` failed: ");
                cat(b.as_str(), message.as_str())
            },
            AppError::ReadGoal { path, source } => quote3("failed to read goal `", path, source),
            AppError::ReadInstruction { path, source } => quote3(
                "failed to read instruction `",
                path,
                source,
            ),
            AppError::WriteArtifact { path, source } => quote3(
                "failed to write artifact `",
                path,
                source,
            ),
            AppError::Logging(s) => cat("failed to initialize logging: ", s.as_str()),
            AppError::Json(s) => cat("failed to serialize JSON output: ", s.as_str()),
        }
    }
}

/// `head`, then `path`, a closing backtick and a colon, then `detail`.
fn quote3(head: &str, path: &String, detail: &String) -> (m: String)
    ensures
        m@ == head@ + path@ + "`: "@ + detail@,
{
    let a = cat(head, path.as_str());
    let b = cat(a.as_str(), "`: ");
    cat(b.as_str(), detail.as_str())
}

} // verus!
