//! The command line: its arguments, how a bare goal is turned into the `goal` command, and
//! what each command checks before it runs.
use vstd::prelude::*;

use crate::config::{clone_opt, opt_view, AppConfig};
use crate::defaults::default_orchestration_config;
use crate::errors::{is_invalid_goal, AppError};
use crate::goal::GoalRequest;
use crate::planner::{build_plan, plan_outcome, PlanOptions};
use crate::settings::Settings;
use crate::text::{cat, eq_str, is_blank, owned, spec_is_blank};

verus! {

#[derive(Clone, Debug)]
pub struct Cli {
    pub command: Commands,
}

#[derive(Clone, Debug)]
pub enum Commands {
    /// Run commands from a config file.
    Run(RunArgs),
    /// Work toward a goal using configured agents.
    Goal(GoalArgs),
    /// Validate a config file without running commands.
    ValidateConfig(ConfigOnlyArgs),
    /// List command IDs from a config file in execution-plan order.
    List(ConfigOnlyArgs),
}

#[derive(Clone, Debug)]
pub struct GoalArgs {
    pub goal: Option<String>,
    pub goal_file: Option<String>,
    pub config: Option<String>,
    pub settings: Option<String>,
    pub instruction_dir: Option<String>,
    pub artifact_dir: Option<String>,
    pub max_parallel_agents: Option<usize>,
    pub approve_golden_plan: bool,
    pub json: bool,
    pub plain: bool,
    pub tui: bool,
}

#[derive(Clone, Debug)]
pub struct RunArgs {
    pub config: Option<String>,
    pub settings: Option<String>,
    pub max_concurrency: Option<usize>,
    pub continue_on_error: bool,
    pub fail_fast: bool,
    pub only: Vec<String>,
    pub json: bool,
}

#[derive(Clone, Debug)]
pub struct ConfigOnlyArgs {
    pub config: Option<String>,
    pub settings: Option<String>,
    pub json: bool,
}

impl RunArgs {
    /// `--continue-on-error` forces continuing, `--fail-fast` forces stopping, otherwise
    /// the configuration decides.
    pub fn continue_on_error_override(&self) -> (r: Option<bool>)
        ensures
            r == if self.continue_on_error {
                Some(true)
            } else if self.fail_fast {
                Some(false)
            } else {
                None
            },
    {
        if self.continue_on_error {
            Some(true)
        } else if self.fail_fast {
            Some(false)
        } else {
            None
        }
    }
}

#[derive(Debug, Clone, Copy, PartialEq, Eq, Structural)]
pub enum OutputMode {
    Auto,
    Plain,
    Json,
    Tui,
}

/// JSON output wins, then plain, then the dashboard, else the terminal decides.
pub fn output_mode(args: &GoalArgs) -> (m: OutputMode)
    ensures
        m == if args.json {
            OutputMode::Json
        } else if args.plain {
            OutputMode::Plain
        } else if args.tui {
            OutputMode::Tui
        } else {
            OutputMode::Auto
        },
{
    if args.json {
        OutputMode::Json
    } else if args.plain {
        OutputMode::Plain
    } else if args.tui {
        OutputMode::Tui
    } else {
        OutputMode::Auto
    }
}

/// The live dashboard is used when asked for, or by default, on a terminal; otherwise lines
/// are printed.
pub fn uses_dashboard(mode: OutputMode, is_terminal: bool) -> (b: bool)
    ensures
        b == ((mode == OutputMode::Tui || mode == OutputMode::Auto) && is_terminal),
{
    (mode == OutputMode::Tui || mode == OutputMode::Auto) && is_terminal
}

// ---------------------------------------------------------------- bare goals

pub open spec fn is_option(s: Seq<char>) -> bool {
    s.len() > 0 && s[0] == '-'
}

pub open spec fn passes_through(first: Seq<char>) -> bool {
    first == "run"@ || first == "goal"@ || first == "validate-config"@ || first == "list"@
        || first == "help"@ || first == "--help"@ || first == "-h"@ || first == "--version"@
        || first == "-V"@
}

/// The position of the first option at or after `i`, or the length.
pub open spec fn first_option(s: Seq<Seq<char>>, i: int) -> int
    decreases s.len() - i,
{
    if i >= s.len() || i < 0 {
        s.len() as int
    } else if is_option(s[i]) {
        i
    } else {
        first_option(s, i + 1)
    }
}

/// The words joined by single spaces.
pub open spec fn join_spaces(s: Seq<Seq<char>>) -> Seq<char>
    decreases s.len(),
{
    if s.len() == 0 {
        Seq::empty()
    } else if s.len() == 1 {
        s[0]
    } else {
        join_spaces(s.drop_last()) + " "@ + s.last()
    }
}

/// The command line with a bare goal turned into the `goal` command: leading words that are
/// not options become the goal text, and `--goal` or `--goal-file` first gets the command
/// put in front of it.
pub open spec fn normalized_args(args: Seq<Seq<char>>) -> Seq<Seq<char>> {
    if args.len() < 2 {
        args
    } else {
        let first = args[1];
        if passes_through(first) {
            args
        } else if first == "--goal"@ || first == "--goal-file"@ {
            args.insert(1, "goal"@)
        } else if !is_option(first) {
            let rest = args.drop_first();
            let k = first_option(rest, 0);
            seq![args[0], "goal"@, "--goal"@, join_spaces(rest.take(k))] + rest.skip(k)
        } else {
            args
        }
    }
}

fn is_option_exec(s: &str) -> (b: bool)
    ensures
        b == is_option(s@),
{
    let v = crate::text::chars_of(s);
    v.len() > 0 && v[0] == '-'
}

pub fn normalize_goal_args(args: Vec<String>) -> (r: Vec<String>)
    ensures
        r.deep_view() == normalized_args(args.deep_view()),
{
    let ghost a = args.deep_view();
    if args.len() < 2 {
        return args;
    }
    let first = args[1].as_str();
    if eq_str(first, "run") || eq_str(first, "goal") || eq_str(first, "validate-config") || eq_str(
        first,
        "list",
    ) || eq_str(first, "help") || eq_str(first, "--help") || eq_str(first, "-h") || eq_str(
        first,
        "--version",
    ) || eq_str(first, "-V") {
        return args;
    }
    if eq_str(first, "--goal") || eq_str(first, "--goal-file") {
        let mut r = args;
        r.insert(1, owned("goal"));
        assert(r.deep_view() =~= a.insert(1, "goal"@));
        return r;
    }
    if is_option_exec(first) {
        return args;
    }
    let ghost rest = a.drop_first();
    let n = args.len();
    let mut k: usize = 1;
    while k < n && !is_option_exec(args[k].as_str())
        invariant
            a == args.deep_view(),
            rest == a.drop_first(),
            n == a.len(),
            1 <= k <= n,
            first_option(rest, 0) == first_option(rest, k - 1),
        decreases n - k,
    {
        assert(rest[k - 1] == a[k as int]);
        k = k + 1;
    }
    if k < n {
        assert(rest[k - 1] == a[k as int]);
    }
    let mut goal = String::new();
    let mut i: usize = 1;
    while i < k
        invariant
            a == args.deep_view(),
            rest == a.drop_first(),
            1 <= i <= k,
            k <= n,
            n == a.len(),
            goal@ == join_spaces(rest.take(i - 1)),
        decreases k - i,
    {
        assert(rest.take(i as int).drop_last() =~= rest.take(i - 1));
        assert(rest.take(i as int).last() == a[i as int]);
        if i > 1 {
            goal = cat(goal.as_str(), " ");
        }
        goal = cat(goal.as_str(), args[i].as_str());
        i = i + 1;
    }
    let mut r: Vec<String> = Vec::new();
    r.push(args[0].clone());
    r.push(owned("goal"));
    r.push(owned("--goal"));
    r.push(goal);
    let mut j: usize = k;
    while j < n
        invariant
            a == args.deep_view(),
            rest == a.drop_first(),
            1 <= k <= j <= n,
            n == a.len(),
            r.deep_view() =~= seq![a[0], "goal"@, "--goal"@, join_spaces(rest.take(k - 1))]
                + rest.skip(k - 1).take(j - k),
        decreases n - j,
    {
        let ghost r0 = r.deep_view();
        r.push(args[j].clone());
        assert(r.deep_view() =~= r0.push(a[j as int]));
        assert(rest.skip(k - 1)[j - k] == rest[j - 1]);
        assert(rest[j - 1] == a[j as int]);
        assert(rest.skip(k - 1).take(j + 1 - k) =~= rest.skip(k - 1).take(j - k).push(a[j as int]));
        j = j + 1;
    }
    assert(rest.skip(k - 1).take(n - k) =~= rest.skip(k - 1));
    r
}

/// A command line whose first argument is a subcommand (`run`, `goal`, `validate-config`,
/// `list`, `help`) or a help or version flag is left exactly as it is.
pub proof fn lemma_subcommands_pass_through(args: Seq<Seq<char>>)
    requires
        args.len() >= 2,
        args[1] == "run"@ || args[1] == "goal"@ || args[1] == "validate-config"@ || args[1]
            == "list"@ || args[1] == "help"@ || args[1] == "--help"@ || args[1] == "-h"@ || args[1]
            == "--version"@ || args[1] == "-V"@,
    ensures
        normalized_args(args) == args,
{
}

/// A command line whose first argument is a word that is neither an option nor a subcommand
/// becomes the `goal` command: the program stays first, then `goal`, `--goal`, and the words
/// up to the first option joined by spaces, then the rest unchanged.
pub proof fn lemma_bare_words_become_the_goal(args: Seq<Seq<char>>, k: int)
    requires
        args.len() >= 2,
        !(args[1] == "run"@ || args[1] == "goal"@ || args[1] == "validate-config"@ || args[1]
            == "list"@ || args[1] == "help"@),
        args[1].len() > 0 && args[1][0] != '-',
        1 <= k <= args.len(),
        forall|m: int| 1 <= m < k ==> !((#[trigger] args[m]).len() > 0 && args[m][0] == '-'),
        k == args.len() || (args[k].len() > 0 && args[k][0] == '-'),
    ensures
        normalized_args(args).len() == 4 + args.len() - k,
        normalized_args(args)[0] == args[0],
        normalized_args(args)[1] == "goal"@,
        normalized_args(args)[2] == "--goal"@,
        normalized_args(args)[3] == join_spaces(args.subrange(1, k)),
        forall|m: int| k <= m < args.len() ==> normalized_args(args)[4 + m - k] == #[trigger] args[m],
{
    let rest = args.drop_first();
    assert(!is_option(args[1]));
    assert(args[1] != "--help"@ && args[1] != "-h"@ && args[1] != "--version"@ && args[1] != "-V"@
        && args[1] != "--goal"@ && args[1] != "--goal-file"@) by {
        reveal_strlit("--help");
        reveal_strlit("-h");
        reveal_strlit("--version");
        reveal_strlit("-V");
        reveal_strlit("--goal");
        reveal_strlit("--goal-file");
    }
    lemma_first_option_from(rest, 0, k - 1);
    assert(rest.take(k - 1) =~= args.subrange(1, k));
}

proof fn lemma_first_option_from(s: Seq<Seq<char>>, i: int, k: int)
    requires
        0 <= i <= k <= s.len(),
        forall|m: int| i <= m < k ==> !is_option(#[trigger] s[m]),
        k == s.len() || is_option(s[k]),
    ensures
        first_option(s, i) == k,
    decreases k - i,
{
    if i < k {
        lemma_first_option_from(s, i + 1, k);
    }
}

/// Normalizing a command line a second time changes nothing.
pub proof fn lemma_normalizing_twice_changes_nothing(args: Seq<Seq<char>>)
    ensures
        normalized_args(normalized_args(args)) == normalized_args(args),
{
    let n = normalized_args(args);
    if args.len() >= 2 && !passes_through(args[1]) && (args[1] == "--goal"@ || args[1]
        == "--goal-file"@ || !is_option(args[1])) {
        if args[1] == "--goal"@ || args[1] == "--goal-file"@ {
            assert(n[1] == "goal"@);
        } else {
            let rest = args.drop_first();
            let k = first_option(rest, 0);
            assert(n[1] == "goal"@);
        }
        assert(passes_through(n[1]));
    }
}

// ---------------------------------------------------------------- goal requests

/// Where the goal text comes from.
#[derive(Clone, Debug, PartialEq, Eq)]
pub enum GoalSource {
    Text(String),
    File(String),
}

/// The goal is given as non-blank text or as a file, not both and not neither.
pub fn goal_source(goal: Option<String>, goal_file: Option<String>) -> (r: Result<GoalSource, AppError>)
    ensures
        match (goal, goal_file) {
            (Some(g), None) if !spec_is_blank(g@) => r matches Ok(GoalSource::Text(t)) && t == g,
            (None, Some(p)) => r matches Ok(GoalSource::File(f)) && f == p,
            _ => r matches Err(e) && is_invalid_goal(e, "provide non-empty --goal or --goal-file"@),
        },
{
    match (goal, goal_file) {
        (Some(g), None) => {
            if !is_blank(g.as_str()) {
                Ok(GoalSource::Text(g))
            } else {
                Err(AppError::InvalidGoal(owned("provide non-empty --goal or --goal-file")))
            }
        },
        (None, Some(p)) => Ok(GoalSource::File(p)),
        _ => Err(AppError::InvalidGoal(owned("provide non-empty --goal or --goal-file"))),
    }
}

/// The request for a goal whose text was read, with the loaded settings.
pub fn goal_request_from_args(args: GoalArgs, settings: Settings, goal: String) -> (r: Result<
    GoalRequest,
    AppError,
>)
    ensures
        spec_is_blank(goal@) ==> (r matches Err(e) && is_invalid_goal(e, "goal must not be empty"@)),
        !spec_is_blank(goal@) ==> (r matches Ok(q) && q.goal == goal && q.config == args.config
            && q.settings == settings && q.instruction_dir == args.instruction_dir
            && q.artifact_dir == args.artifact_dir && q.max_parallel_agents
            == args.max_parallel_agents && q.approve_golden_plan == args.approve_golden_plan
            && q.json == args.json),
{
    if is_blank(goal.as_str()) {
        return Err(AppError::InvalidGoal(owned("goal must not be empty")));
    }
    Ok(
        GoalRequest {
            goal,
            config: args.config,
            settings,
            instruction_dir: args.instruction_dir,
            artifact_dir: args.artifact_dir,
            max_parallel_agents: args.max_parallel_agents,
            approve_golden_plan: args.approve_golden_plan,
            json: args.json,
        },
    )
}

/// Checks a loaded configuration: a command list must make a plan, otherwise its
/// orchestration (or the built-in one) must make agents.
pub fn validate_config_source(config: AppConfig) -> (r: Result<(), AppError>)
    ensures
        config.commands@.len() > 0 ==> exists|
            o: PlanOptions,
            dirs: Seq<bool>,
            p: Result<crate::model::ExecutionPlan, AppError>,
        |
            o.max_concurrency is None && o.continue_on_error is None && o.only@.len() == 0
                && dirs.len() == config.commands@.len() && #[trigger] plan_outcome(
                config,
                o,
                dirs,
                p,
            ) && (r is Ok <==> p is Ok) && (p is Err ==> r == Err::<(), AppError>(p->Err_0)),
        config.commands@.len() == 0 && config.orchestration is Some ==> (r is Ok <==> (
        crate::config::config_valid(config.orchestration->0) && crate::errors::first_problem(
            crate::config::unknown_backend_problems(config.orchestration->0),
            0,
            config.orchestration->0.nodes@.len() as int,
        ) is None)),
{
    if config.commands.len() > 0 {
        let options = PlanOptions::new();
        let ghost o = options;
        let ghost c = config;
        let p = build_plan(config, options);
        let r: Result<(), AppError> = match p {
            Ok(_) => Ok(()),
            Err(e) => Err(e),
        };
        proof {
            let dirs = choose|dirs: Seq<bool>|
                dirs.len() == c.commands@.len() && #[trigger] plan_outcome(c, o, dirs, p);
            assert(plan_outcome(c, o, dirs, p));
        }
        return r;
    }
    let orchestration = match config.orchestration {
        Some(o) => o,
        None => default_orchestration_config(),
    };
    match orchestration.into_agent_config() {
        Ok(_) => Ok(()),
        Err(e) => Err(e),
    }
}

// ---------------------------------------------------------------- banner and settings

pub open spec fn banner_text() -> Seq<char> {
    "\n+----------------------------------------------------------------+\n|            \x1b[38;2;255;48;0m ██████╗ ██████╗  ██████╗ █████╗ \x1b[0m               |\n|            \x1b[38;2;255;81;0m██╔═══██╗██╔══██╗██╔════╝██╔══██╗\x1b[0m               |\n|            \x1b[38;2;255;126;0m██║   ██║██████╔╝██║     ███████║\x1b[0m               |\n|            \x1b[38;2;255;162;0m██║   ██║██╔══██╗██║     ██╔══██║\x1b[0m               |\n|            \x1b[38;2;255;205;0m╚██████╔╝██║  ██║╚██████╗██║  ██║\x1b[0m               |\n|            \x1b[38;2;255;224;102m ╚═════╝ ╚═╝  ╚═╝ ╚═════╝╚═╝  ╚═╝\x1b[0m               |\n|                                                                |\n|              \x1b[1;38;2;255;205;0mORCA\x1b[0m - Agents orchestration platform              |\n+----------------------------------------------------------------+\n\nSet a goal to begin:\n\n  orca \"build the feature described in README.md\"\n  orca --goal \"fix the failing tests and update docs\"\n  orca --goal-file goal.md\n\nUseful options:\n\n  --plain    Use line-oriented output instead of the live dashboard\n  --tui      Force the live multi-agent dashboard\n  --json     Emit the final goal summary as JSON\n\nORCA will plan, critique, generate a golden plan, run work/tests/KPI\nchecks, and retry until the completion gates pass or max_iterations is hit.\n"@
}

/// The banner shown when the command is run without arguments.
pub fn welcome_banner() -> (r: &'static str)
    ensures
        r@ == banner_text(),
{
    "\n+----------------------------------------------------------------+\n|            \x1b[38;2;255;48;0m ██████╗ ██████╗  ██████╗ █████╗ \x1b[0m               |\n|            \x1b[38;2;255;81;0m██╔═══██╗██╔══██╗██╔════╝██╔══██╗\x1b[0m               |\n|            \x1b[38;2;255;126;0m██║   ██║██████╔╝██║     ███████║\x1b[0m               |\n|            \x1b[38;2;255;162;0m██║   ██║██╔══██╗██║     ██╔══██║\x1b[0m               |\n|            \x1b[38;2;255;205;0m╚██████╔╝██║  ██║╚██████╗██║  ██║\x1b[0m               |\n|            \x1b[38;2;255;224;102m ╚═════╝ ╚═╝  ╚═╝ ╚═════╝╚═╝  ╚═╝\x1b[0m               |\n|                                                                |\n|              \x1b[1;38;2;255;205;0mORCA\x1b[0m - Agents orchestration platform              |\n+----------------------------------------------------------------+\n\nSet a goal to begin:\n\n  orca \"build the feature described in README.md\"\n  orca --goal \"fix the failing tests and update docs\"\n  orca --goal-file goal.md\n\nUseful options:\n\n  --plain    Use line-oriented output instead of the live dashboard\n  --tui      Force the live multi-agent dashboard\n  --json     Emit the final goal summary as JSON\n\nORCA will plan, critique, generate a golden plan, run work/tests/KPI\nchecks, and retry until the completion gates pass or max_iterations is hit.\n"
}

#[derive(Clone, Debug, PartialEq, Eq)]
pub struct CliUiConfig {
    pub tui: TuiConfig,
}

#[derive(Clone, Debug, PartialEq, Eq)]
pub struct TuiConfig {
    pub max_visible_panes: usize,
    pub compact_header_height: u16,
}

impl Default for TuiConfig {
    /// Four panes at a time, a three-row compact header.
    fn default() -> (c: Self)
        ensures
            c.max_visible_panes == 4,
            c.compact_header_height == 3,
    {
        TuiConfig { max_visible_panes: 4, compact_header_height: 3 }
    }
}

impl Default for CliUiConfig {
    fn default() -> (c: Self)
        ensures
            c.tui.max_visible_panes == 4,
            c.tui.compact_header_height == 3,
    {
        CliUiConfig { tui: TuiConfig::default() }
    }
}

} // verus!
