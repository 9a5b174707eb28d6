//! Building an execution plan from the command list of a configuration.
use vstd::prelude::*;

use crate::config::{
    clone_opt, contains_string, either, join3, join5, opt_view, AppConfig, CommandConfig,
};
use crate::errors::{
    first_problem, is_invalid_config, lemma_first_problem_none, lemma_first_problem_skip, reports,
    AppError,
};
use crate::graph::{
    cycle_among, distinct_names, edges_view, endpoints_named, is_name_path, name_edge,
    name_on_cycle, names_acyclic, sorted_endpoints,
};
use crate::model::{CommandSpec, ExecutionPlan};
use crate::paths::directory_exists;
use crate::text::{eq_str, has_whitespace, is_blank, owned, spec_has_whitespace, spec_is_blank};

verus! {

pub const DEFAULT_MAX_CONCURRENCY: usize = 4;

#[derive(Clone, Debug)]
pub struct PlanOptions {
    pub max_concurrency: Option<usize>,
    pub continue_on_error: Option<bool>,
    pub only: Vec<String>,
}

impl PlanOptions {
    /// No overrides and no selection.
    pub fn new() -> (o: Self)
        ensures
            o.max_concurrency is None,
            o.continue_on_error is None,
            o.only@.len() == 0,
    {
        PlanOptions { max_concurrency: None, continue_on_error: None, only: Vec::new() }
    }
}

pub open spec fn command_ids(cs: Seq<CommandConfig>) -> Seq<Seq<char>> {
    cs.map_values(|c: CommandConfig| c.id@)
}

pub open spec fn id_problem(cs: Seq<CommandConfig>, i: int) -> Option<Seq<char>> {
    let c = cs[i];
    if spec_is_blank(c.id@) {
        Some("command id must not be empty"@)
    } else if spec_has_whitespace(c.id@) {
        Some("command id `"@ + c.id@ + "` must not contain whitespace"@)
    } else if spec_is_blank(c.program@) {
        Some("command `"@ + c.id@ + "` must set a non-empty program"@)
    } else if exists|j: int| 0 <= j < i && (#[trigger] cs[j]).id@ == c.id@ {
        Some("duplicate command id `"@ + c.id@ + "`"@)
    } else {
        None
    }
}

pub open spec fn id_problems(cs: Seq<CommandConfig>) -> spec_fn(int) -> Option<Seq<char>> {
    |i: int| id_problem(cs, i)
}

/// `dirs[i]` tells whether the working directory of command `i` is an existing directory.
pub open spec fn option_problem(cs: Seq<CommandConfig>, dirs: Seq<bool>, i: int) -> Option<
    Seq<char>,
> {
    let c = cs[i];
    if c.timeout_secs == Some(0u64) {
        Some("command `"@ + c.id@ + "` timeout_secs must be greater than zero"@)
    } else if c.cwd is Some && !dirs[i] {
        Some("command `"@ + c.id@ + "` cwd `"@ + c.cwd->0@ + "` must be an existing directory"@)
    } else {
        None
    }
}

pub open spec fn option_problems(cs: Seq<CommandConfig>, dirs: Seq<bool>) -> spec_fn(int) -> Option<
    Seq<char>,
> {
    |i: int| option_problem(cs, dirs, i)
}

pub open spec fn has_command(cs: Seq<CommandConfig>, x: Seq<char>) -> bool {
    exists|i: int| 0 <= i < cs.len() && (#[trigger] cs[i]).id@ == x
}

pub open spec fn dep_problem(cs: Seq<CommandConfig>, i: int, j: int) -> Option<Seq<char>> {
    let c = cs[i];
    let d = c.depends_on@[j]@;
    if d == c.id@ {
        Some("command `"@ + c.id@ + "` cannot depend on itself"@)
    } else if !has_command(cs, d) {
        Some("command `"@ + c.id@ + "` depends on unknown command `"@ + d + "`"@)
    } else {
        None
    }
}

pub open spec fn dep_problems(cs: Seq<CommandConfig>, i: int) -> spec_fn(int) -> Option<Seq<char>> {
    |j: int| dep_problem(cs, i, j)
}

pub open spec fn command_dep_problem(cs: Seq<CommandConfig>, i: int) -> Option<Seq<char>> {
    first_problem(dep_problems(cs, i), 0, cs[i].depends_on@.len() as int)
}

pub open spec fn command_dep_problems(cs: Seq<CommandConfig>) -> spec_fn(int) -> Option<Seq<char>> {
    |i: int| command_dep_problem(cs, i)
}

pub open spec fn effective_concurrency(config: AppConfig, options: PlanOptions) -> usize {
    match options.max_concurrency {
        Some(m) => m,
        None => match config.max_concurrency {
            Some(m) => m,
            None => DEFAULT_MAX_CONCURRENCY,
        },
    }
}

/// What building a plan refuses before looking for cycles.
pub open spec fn plan_structure_check(config: AppConfig, options: PlanOptions, dirs: Seq<bool>) -> Option<
    Seq<char>,
> {
    let cs = config.commands@;
    if cs.len() == 0 {
        Some("at least one [[commands]] entry is required"@)
    } else if effective_concurrency(config, options) == 0 {
        Some("max_concurrency must be greater than zero"@)
    } else {
        either(
            first_problem(id_problems(cs), 0, cs.len() as int),
            either(
                first_problem(option_problems(cs, dirs), 0, cs.len() as int),
                first_problem(command_dep_problems(cs), 0, cs.len() as int),
            ),
        )
    }
}

/// Command `a` depends on command `b`.
pub open spec fn cmd_edge(cs: Seq<CommandConfig>, a: Seq<char>, b: Seq<char>) -> bool {
    exists|i: int, j: int|
        0 <= i < cs.len() && 0 <= j < cs[i].depends_on@.len() && cs[i].id@ == a
            && (#[trigger] cs[i].depends_on@[j])@ == b
}

pub open spec fn is_cmd_path(cs: Seq<CommandConfig>, p: Seq<Seq<char>>) -> bool {
    forall|i: int| 0 <= i < p.len() - 1 ==> #[trigger] cmd_edge(cs, p[i], p[i + 1])
}

pub open spec fn cmds_acyclic(cs: Seq<CommandConfig>) -> bool {
    forall|p: Seq<Seq<char>>| p.len() >= 2 && is_cmd_path(cs, p) ==> p[0] != p.last()
}

pub open spec fn on_cmd_cycle(cs: Seq<CommandConfig>, x: Seq<char>) -> bool {
    exists|p: Seq<Seq<char>>| p.len() >= 2 && is_cmd_path(cs, p) && p[0] == x && p.last() == x
}

/// `b` is `a` or one of its direct or indirect dependencies.
pub open spec fn cmd_reach(cs: Seq<CommandConfig>, a: Seq<char>, b: Seq<char>) -> bool {
    exists|p: Seq<Seq<char>>| p.len() >= 1 && is_cmd_path(cs, p) && p[0] == a && p.last() == b
}

pub open spec fn request_problem(cs: Seq<CommandConfig>, req: Seq<String>, k: int) -> Option<
    Seq<char>,
> {
    if has_command(cs, req[k]@) {
        None
    } else {
        Some("requested command `"@ + req[k]@ + "` does not exist"@)
    }
}

pub open spec fn request_problems(cs: Seq<CommandConfig>, req: Seq<String>) -> spec_fn(int) -> Option<
    Seq<char>,
> {
    |k: int| request_problem(cs, req, k)
}

pub open spec fn selection_problem(cs: Seq<CommandConfig>, req: Seq<String>) -> Option<Seq<char>> {
    first_problem(request_problems(cs, req), 0, req.len() as int)
}

/// A command is run when nothing was requested, or when it is a requested command or one of
/// their dependencies.
pub open spec fn is_selected(cs: Seq<CommandConfig>, req: Seq<String>, x: Seq<char>) -> bool {
    if req.len() == 0 {
        has_command(cs, x)
    } else {
        exists|k: int| 0 <= k < req.len() && cmd_reach(cs, (#[trigger] req[k])@, x)
    }
}

/// The plan entry of a configured command.
pub open spec fn spec_of_command(c: CommandConfig, s: CommandSpec) -> bool {
    &&& s.id == c.id
    &&& s.program == c.program
    &&& s.args == c.args
    &&& s.depends_on == c.depends_on
    &&& s.env == c.env
    &&& s.cwd == c.cwd
    &&& s.timeout_secs == c.timeout_secs
    &&& s.retries == c.retries
    &&& s.retry_delay_ms == c.retry_delay_ms
    &&& s.output_label is None
    &&& s.output_phase is None
    &&& s.output_model is None
}

pub open spec fn selected_pred(cs: Seq<CommandConfig>, req: Seq<String>) -> spec_fn(
    CommandConfig,
) -> bool {
    |c: CommandConfig| is_selected(cs, req, c.id@)
}

pub open spec fn plan_of(config: AppConfig, options: PlanOptions, p: ExecutionPlan) -> bool {
    let cs = config.commands@;
    let chosen = cs.filter(selected_pred(cs, options.only@));
    &&& p.max_concurrency == effective_concurrency(config, options)
    &&& p.continue_on_error == match options.continue_on_error {
        Some(b) => b,
        None => match config.continue_on_error {
            Some(b) => b,
            None => false,
        },
    }
    &&& p.commands@.len() == chosen.len()
    &&& forall|i: int| 0 <= i < chosen.len() ==> spec_of_command(chosen[i], #[trigger] p.commands@[i])
}

/// The outcome of building a plan, `dirs` telling which working directories exist.
pub open spec fn plan_outcome(
    config: AppConfig,
    options: PlanOptions,
    dirs: Seq<bool>,
    r: Result<ExecutionPlan, AppError>,
) -> bool {
    let cs = config.commands@;
    match plan_structure_check(config, options, dirs) {
        Some(m) => r matches Err(e) && is_invalid_config(e, m),
        None => if !cmds_acyclic(cs) {
            r matches Err(e) && exists|x: Seq<char>|
                on_cmd_cycle(cs, x) && #[trigger] is_invalid_config(
                    e,
                    "dependency cycle detected at `"@ + x + "`"@,
                )
        } else {
            match selection_problem(cs, options.only@) {
                Some(m) => r matches Err(e) && is_invalid_config(e, m),
                None => r matches Ok(p) && plan_of(config, options, p),
            }
        },
    }
}


/// A command id is non-empty and has no whitespace.
pub fn validate_command_id(id: &str) -> (r: Result<(), AppError>)
    ensures
        reports(
            r,
            if spec_is_blank(id@) {
                Some("command id must not be empty"@)
            } else if spec_has_whitespace(id@) {
                Some("command id `"@ + id@ + "` must not contain whitespace"@)
            } else {
                None
            },
        ),
{
    if is_blank(id) {
        return Err(AppError::InvalidConfig(owned("command id must not be empty")));
    }
    if has_whitespace(id) {
        return Err(
            AppError::InvalidConfig(join3("command id `", id, "` must not contain whitespace")),
        );
    }
    Ok(())
}

/// Command ids are well formed and unique, and every command names a program.
pub fn validate_unique_ids(commands: &Vec<CommandConfig>) -> (r: Result<(), AppError>)
    ensures
        reports(r, first_problem(id_problems(commands@), 0, commands@.len() as int)),
{
    let ghost f = id_problems(commands@);
    let n = commands.len();
    let mut i: usize = 0;
    while i < n
        invariant
            f == id_problems(commands@),
            n == commands@.len(),
            i <= n,
            forall|j: int| 0 <= j < i ==> (#[trigger] f(j)) is None,
        decreases n - i,
    {
        proof {
            lemma_first_problem_skip(f, 0, i as int, n as int);
        }
        let c = &commands[i];
        let v = validate_command_id(c.id.as_str());
        if v.is_err() {
            return v;
        }
        if is_blank(c.program.as_str()) {
            return Err(
                AppError::InvalidConfig(
                    join3("command `", c.id.as_str(), "` must set a non-empty program"),
                ),
            );
        }
        let mut j: usize = 0;
        while j < i
            invariant
                f == id_problems(commands@),
                n == commands@.len(),
                i < n,
                j <= i,
                !spec_is_blank(commands@[i as int].id@),
                !spec_has_whitespace(commands@[i as int].id@),
                !spec_is_blank(commands@[i as int].program@),
                first_problem(f, 0, n as int) == first_problem(f, i as int, n as int),
                forall|m: int| 0 <= m < j ==> (#[trigger] commands@[m]).id@ != commands@[i as int].id@,
            decreases i - j,
        {
            if eq_str(commands[j].id.as_str(), commands[i].id.as_str()) {
                assert(commands@[j as int].id@ == commands@[i as int].id@);
                return Err(
                    AppError::InvalidConfig(
                        join3("duplicate command id `", commands[i].id.as_str(), "`"),
                    ),
                );
            }
            j = j + 1;
        }
        i = i + 1;
    }
    proof {
        lemma_first_problem_none(f, 0, n as int);
    }
    Ok(())
}

/// Timeouts are positive and working directories exist (`dirs[i]` for command `i`).
pub fn validate_command_options(commands: &Vec<CommandConfig>, dirs: &Vec<bool>) -> (r: Result<
    (),
    AppError,
>)
    requires
        dirs@.len() == commands@.len(),
    ensures
        reports(r, first_problem(option_problems(commands@, dirs@), 0, commands@.len() as int)),
{
    let ghost f = option_problems(commands@, dirs@);
    let n = commands.len();
    let mut i: usize = 0;
    while i < n
        invariant
            f == option_problems(commands@, dirs@),
            n == commands@.len(),
            dirs@.len() == n,
            i <= n,
            forall|j: int| 0 <= j < i ==> (#[trigger] f(j)) is None,
        decreases n - i,
    {
        proof {
            lemma_first_problem_skip(f, 0, i as int, n as int);
        }
        let c = &commands[i];
        if c.timeout_secs == Some(0u64) {
            return Err(
                AppError::InvalidConfig(
                    join3("command `", c.id.as_str(), "` timeout_secs must be greater than zero"),
                ),
            );
        }
        if let Some(cwd) = &c.cwd {
            if !dirs[i] {
                return Err(
                    AppError::InvalidConfig(
                        join5(
                            "command `",
                            c.id.as_str(),
                            "` cwd `",
                            cwd.as_str(),
                            "` must be an existing directory",
                        ),
                    ),
                );
            }
        }
        i = i + 1;
    }
    proof {
        lemma_first_problem_none(f, 0, n as int);
    }
    Ok(())
}

fn has_command_exec(commands: &Vec<CommandConfig>, x: &str) -> (r: bool)
    ensures
        r == has_command(commands@, x@),
{
    let mut i: usize = 0;
    while i < commands.len()
        invariant
            i <= commands@.len(),
            forall|m: int| 0 <= m < i ==> (#[trigger] commands@[m]).id@ != x@,
        decreases commands.len() - i,
    {
        if eq_str(commands[i].id.as_str(), x) {
            return true;
        }
        i = i + 1;
    }
    false
}

/// No command depends on itself or on a command that does not exist.
pub fn validate_dependencies(commands: &Vec<CommandConfig>) -> (r: Result<(), AppError>)
    ensures
        reports(r, first_problem(command_dep_problems(commands@), 0, commands@.len() as int)),
{
    let ghost f = command_dep_problems(commands@);
    let n = commands.len();
    let mut i: usize = 0;
    while i < n
        invariant
            f == command_dep_problems(commands@),
            n == commands@.len(),
            i <= n,
            forall|j: int| 0 <= j < i ==> (#[trigger] f(j)) is None,
        decreases n - i,
    {
        proof {
            lemma_first_problem_skip(f, 0, i as int, n as int);
        }
        let c = &commands[i];
        let ghost g = dep_problems(commands@, i as int);
        let mut j: usize = 0;
        while j < c.depends_on.len()
            invariant
                f == command_dep_problems(commands@),
                g == dep_problems(commands@, i as int),
                n == commands@.len(),
                i < n,
                c == commands@[i as int],
                first_problem(f, 0, n as int) == first_problem(f, i as int, n as int),
                j <= c.depends_on@.len(),
                forall|m: int| 0 <= m < j ==> (#[trigger] g(m)) is None,
            decreases c.depends_on.len() - j,
        {
            proof {
                lemma_first_problem_skip(g, 0, j as int, c.depends_on@.len() as int);
            }
            let d = &c.depends_on[j];
            if eq_str(d.as_str(), c.id.as_str()) {
                return Err(
                    AppError::InvalidConfig(
                        join3("command `", c.id.as_str(), "` cannot depend on itself"),
                    ),
                );
            }
            if !has_command_exec(commands, d.as_str()) {
                return Err(
                    AppError::InvalidConfig(
                        join5(
                            "command `",
                            c.id.as_str(),
                            "` depends on unknown command `",
                            d.as_str(),
                            "`",
                        ),
                    ),
                );
            }
            j = j + 1;
        }
        proof {
            lemma_first_problem_none(g, 0, c.depends_on@.len() as int);
        }
        i = i + 1;
    }
    proof {
        lemma_first_problem_none(f, 0, n as int);
    }
    Ok(())
}

/// The dependency edges `(command, dependency)` in configuration order.
fn command_edges(commands: &Vec<CommandConfig>) -> (edges: Vec<(String, String)>)
    ensures
        forall|a: Seq<char>, b: Seq<char>|
            name_edge(edges_view(edges@), a, b) <==> cmd_edge(commands@, a, b),
{
    let mut edges: Vec<(String, String)> = Vec::new();
    let mut i: usize = 0;
    while i < commands.len()
        invariant
            i <= commands@.len(),
            forall|a: Seq<char>, b: Seq<char>|
                name_edge(edges_view(edges@), a, b) <==> exists|i2: int, j2: int|
                    0 <= i2 < i && 0 <= j2 < commands@[i2].depends_on@.len() && commands@[i2].id@
                        == a && (#[trigger] commands@[i2].depends_on@[j2])@ == b,
        decreases commands.len() - i,
    {
        let c = &commands[i];
        let mut j: usize = 0;
        while j < c.depends_on.len()
            invariant
                i < commands@.len(),
                c == commands@[i as int],
                j <= c.depends_on@.len(),
                forall|a: Seq<char>, b: Seq<char>|
                    name_edge(edges_view(edges@), a, b) <==> (exists|i2: int, j2: int|
                        0 <= i2 < i && 0 <= j2 < commands@[i2].depends_on@.len()
                            && commands@[i2].id@ == a && (#[trigger] commands@[i2].depends_on@[j2])@
                            == b) || (exists|j2: int|
                        0 <= j2 < j && c.id@ == a && (#[trigger] c.depends_on@[j2])@ == b),
            decreases c.depends_on.len() - j,
        {
            let d = &c.depends_on[j];
            let ghost e0 = edges_view(edges@);
            edges.push((c.id.clone(), d.clone()));
            proof {
                let e1 = edges_view(edges@);
                assert(e1 =~= e0.push((c.id@, d@)));
                assert forall|a: Seq<char>, b: Seq<char>|
                    name_edge(e1, a, b) <==> (name_edge(e0, a, b) || (a == c.id@ && b == d@)) by {
                    if name_edge(e1, a, b) {
                        let m = choose|m: int| 0 <= m < e1.len() && #[trigger] e1[m] == (a, b);
                        if m < e0.len() {
                            assert(e0[m] == e1[m]);
                        }
                    }
                    if name_edge(e0, a, b) {
                        let m = choose|m: int| 0 <= m < e0.len() && #[trigger] e0[m] == (a, b);
                        assert(e1[m] == e0[m]);
                    }
                    if a == c.id@ && b == d@ {
                        assert(e1[e0.len() as int] == (a, b));
                    }
                }
            }
            j = j + 1;
        }
        proof {
            assert forall|a: Seq<char>, b: Seq<char>|
                name_edge(edges_view(edges@), a, b) <==> exists|i2: int, j2: int|
                    0 <= i2 < i + 1 && 0 <= j2 < commands@[i2].depends_on@.len()
                        && commands@[i2].id@ == a && (#[trigger] commands@[i2].depends_on@[j2])@
                        == b by {
                if exists|j2: int| 0 <= j2 < j && c.id@ == a && (#[trigger] c.depends_on@[j2])@ == b {
                    let j2 = choose|j2: int|
                        0 <= j2 < j && c.id@ == a && (#[trigger] c.depends_on@[j2])@ == b;
                    assert(commands@[i as int].depends_on@[j2] == c.depends_on@[j2]);
                }
                if exists|i2: int, j2: int|
                    0 <= i2 < i + 1 && 0 <= j2 < commands@[i2].depends_on@.len()
                        && commands@[i2].id@ == a && (#[trigger] commands@[i2].depends_on@[j2])@
                        == b {
                    let (i2, j2) = choose|i2: int, j2: int|
                        0 <= i2 < i + 1 && 0 <= j2 < commands@[i2].depends_on@.len()
                            && commands@[i2].id@ == a && (#[trigger] commands@[i2].depends_on@[j2])@
                            == b;
                    if i2 == i {
                        assert(c.depends_on@[j2] == commands@[i2].depends_on@[j2]);
                    }
                }
            }
        }
        i = i + 1;
    }
    edges
}

proof fn lemma_cmd_paths_agree(cs: Seq<CommandConfig>, es: Seq<(Seq<char>, Seq<char>)>)
    requires
        forall|a: Seq<char>, b: Seq<char>| name_edge(es, a, b) <==> cmd_edge(cs, a, b),
    ensures
        forall|p: Seq<Seq<char>>| is_name_path(es, p) <==> (p.len() >= 2 && is_cmd_path(cs, p)),
{
    assert forall|p: Seq<Seq<char>>| is_name_path(es, p) <==> (p.len() >= 2 && is_cmd_path(cs, p)) by {
        if is_name_path(es, p) {
            assert forall|i: int| 0 <= i < p.len() - 1 implies #[trigger] cmd_edge(cs, p[i], p[i + 1]) by {
                assert(name_edge(es, p[i], p[i + 1]));
            }
        }
        if p.len() >= 2 && is_cmd_path(cs, p) {
            assert forall|i: int| 0 <= i < p.len() - 1 implies #[trigger] name_edge(es, p[i], p[i + 1]) by {
                assert(cmd_edge(cs, p[i], p[i + 1]));
            }
        }
    }
}

/// No command depends, directly or through others, on itself; otherwise the error names a
/// command on a cycle.
pub fn validate_cycles(commands: &Vec<CommandConfig>) -> (r: Result<(), AppError>)
    ensures
        r is Ok <==> cmds_acyclic(commands@),
        r is Err ==> exists|x: Seq<char>|
            on_cmd_cycle(commands@, x) && #[trigger] is_invalid_config(
                r->Err_0,
                "dependency cycle detected at `"@ + x + "`"@,
            ),
{
    let edges = command_edges(commands);
    let names = sorted_endpoints(&edges);
    let found = cycle_among(&names, &edges);
    proof {
        lemma_cmd_paths_agree(commands@, edges_view(edges@));
    }
    match found {
        None => Ok(()),
        Some(x) => {
            let e = AppError::InvalidConfig(
                join3("dependency cycle detected at `", names[x].as_str(), "`"),
            );
            let ghost nx = names.deep_view()[x as int];
            proof {
                assert(names@[x as int]@ == nx);
                let p = choose|p: Seq<Seq<char>>|
                    is_name_path(edges_view(edges@), p) && p[0] == nx && p.last() == nx;
                assert(p.len() >= 2 && is_cmd_path(commands@, p));
                assert(on_cmd_cycle(commands@, nx));
                assert(!cmds_acyclic(commands@));
            }
            let r: Result<(), AppError> = Err(e);
            assert(is_invalid_config(r->Err_0, "dependency cycle detected at `"@ + nx + "`"@));
            r
        },
    }
}

// ---------------------------------------------------------------- selection

/// Every dependency names a configured command.
pub open spec fn deps_known(cs: Seq<CommandConfig>) -> bool {
    forall|i: int, j: int|
        0 <= i < cs.len() && 0 <= j < cs[i].depends_on@.len() ==> has_command(
            cs,
            (#[trigger] cs[i].depends_on@[j])@,
        )
}

/// Whenever a command is in `s`, so are its dependencies.
pub open spec fn closed_under_deps(cs: Seq<CommandConfig>, s: Seq<Seq<char>>) -> bool {
    forall|i: int, j: int|
        0 <= i < cs.len() && 0 <= j < cs[i].depends_on@.len() && s.contains(cs[i].id@) ==> s.contains(
            (#[trigger] cs[i].depends_on@[j])@,
        )
}

/// `x` is reached from some name of `s`.
pub open spec fn reached_from(cs: Seq<CommandConfig>, s: Seq<Seq<char>>, x: Seq<char>) -> bool {
    exists|y: Seq<char>| s.contains(y) && #[trigger] cmd_reach(cs, y, x)
}

proof fn lemma_reach_refl(cs: Seq<CommandConfig>, a: Seq<char>)
    ensures
        cmd_reach(cs, a, a),
{
    let p = seq![a];
    assert(is_cmd_path(cs, p));
    assert(p.last() == a);
}

proof fn lemma_reach_step(cs: Seq<CommandConfig>, a: Seq<char>, b: Seq<char>, c: Seq<char>)
    requires
        cmd_reach(cs, a, b),
        cmd_edge(cs, b, c),
    ensures
        cmd_reach(cs, a, c),
{
    let p = choose|p: Seq<Seq<char>>| p.len() >= 1 && is_cmd_path(cs, p) && p[0] == a && p.last() == b;
    let q = p.push(c);
    assert forall|i: int| 0 <= i < q.len() - 1 implies #[trigger] cmd_edge(cs, q[i], q[i + 1]) by {
        if i < p.len() - 1 {
            assert(q[i] == p[i] && q[i + 1] == p[i + 1]);
        } else {
            assert(q[i] == b);
            assert(q[i + 1] == c);
        }
    }
    assert(q[0] == a);
    assert(q.last() == c);
}

proof fn lemma_closed_path(cs: Seq<CommandConfig>, s: Seq<Seq<char>>, p: Seq<Seq<char>>)
    requires
        closed_under_deps(cs, s),
        p.len() >= 1,
        is_cmd_path(cs, p),
        s.contains(p[0]),
    ensures
        s.contains(p.last()),
    decreases p.len(),
{
    if p.len() > 1 {
        let q = p.drop_last();
        assert forall|i: int| 0 <= i < q.len() - 1 implies #[trigger] cmd_edge(cs, q[i], q[i + 1]) by {
            assert(cmd_edge(cs, p[i], p[i + 1]));
        }
        lemma_closed_path(cs, s, q);
        let n = p.len() - 2;
        assert(cmd_edge(cs, p[n], p[n + 1]));
        let (i, j) = choose|i: int, j: int|
            0 <= i < cs.len() && 0 <= j < cs[i].depends_on@.len() && cs[i].id@ == p[n]
                && (#[trigger] cs[i].depends_on@[j])@ == p[n + 1];
        assert(q.last() == p[n]);
    }
}

proof fn lemma_selection_bound(cs: Seq<CommandConfig>, s: Seq<Seq<char>>)
    requires
        s.no_duplicates(),
        forall|k: int| 0 <= k < s.len() ==> has_command(cs, #[trigger] s[k]),
    ensures
        s.len() <= cs.len(),
{
    let ids = command_ids(cs);
    s.unique_seq_to_set();
    ids.lemma_cardinality_of_set();
    assert(s.to_set().subset_of(ids.to_set())) by {
        assert forall|x: Seq<char>| s.to_set().contains(x) implies ids.to_set().contains(x) by {
            let k = choose|k: int| 0 <= k < s.len() && s[k] == x;
            assert(has_command(cs, s[k]));
            let m = choose|m: int| 0 <= m < cs.len() && (#[trigger] cs[m]).id@ == x;
            assert(ids[m] == x);
        }
    }
    vstd::set_lib::lemma_len_subset(s.to_set(), ids.to_set());
}

/// Grows `selected` until it holds the dependencies of each of its commands.
fn close_over_dependencies(commands: &Vec<CommandConfig>, selected: &mut Vec<String>)
    requires
        deps_known(commands@),
        old(selected).deep_view().no_duplicates(),
        forall|k: int|
            0 <= k < old(selected).deep_view().len() ==> has_command(
                commands@,
                #[trigger] old(selected).deep_view()[k],
            ),
    ensures
        final(selected).deep_view().no_duplicates(),
        closed_under_deps(commands@, final(selected).deep_view()),
        forall|x: Seq<char>|
            old(selected).deep_view().contains(x) ==> final(selected).deep_view().contains(x),
        forall|x: Seq<char>|
            final(selected).deep_view().contains(x) ==> reached_from(
                commands@,
                old(selected).deep_view(),
                x,
            ),
{
    let ghost cs = commands@;
    let ghost s0 = selected.deep_view();
    proof {
        assert forall|x: Seq<char>| s0.contains(x) implies reached_from(cs, s0, x) by {
            lemma_reach_refl(cs, x);
        }
    }
    loop
        invariant
            cs == commands@,
            s0 == old(selected).deep_view(),
            deps_known(cs),
            selected.deep_view().no_duplicates(),
            forall|k: int|
                0 <= k < selected.deep_view().len() ==> has_command(
                    cs,
                    #[trigger] selected.deep_view()[k],
                ),
            forall|x: Seq<char>| s0.contains(x) ==> selected.deep_view().contains(x),
            forall|x: Seq<char>| selected.deep_view().contains(x) ==> reached_from(cs, s0, x),
        ensures
            closed_under_deps(cs, selected.deep_view()),
        decreases cs.len() - selected.deep_view().len(),
    {
        let ghost start = selected.deep_view();
        let mut changed = false;
        let mut i: usize = 0;
        while i < commands.len()
            invariant
                cs == commands@,
                s0 == old(selected).deep_view(),
                deps_known(cs),
                selected.deep_view().no_duplicates(),
                forall|k: int|
                    0 <= k < selected.deep_view().len() ==> has_command(
                        cs,
                        #[trigger] selected.deep_view()[k],
                    ),
                forall|x: Seq<char>| s0.contains(x) ==> selected.deep_view().contains(x),
                forall|x: Seq<char>| selected.deep_view().contains(x) ==> reached_from(cs, s0, x),
                i <= cs.len(),
                start.len() <= selected.deep_view().len(),
                changed ==> start.len() < selected.deep_view().len(),
                !changed ==> selected.deep_view() == start,
                !changed ==> forall|i2: int, j2: int|
                    0 <= i2 < i && 0 <= j2 < cs[i2].depends_on@.len() && start.contains(cs[i2].id@)
                        ==> start.contains((#[trigger] cs[i2].depends_on@[j2])@),
            decreases cs.len() - i,
        {
            let c = &commands[i];
            if contains_string(selected, c.id.as_str()) {
                let mut j: usize = 0;
                while j < c.depends_on.len()
                    invariant
                        cs == commands@,
                        s0 == old(selected).deep_view(),
                        deps_known(cs),
                        selected.deep_view().no_duplicates(),
                        forall|k: int|
                            0 <= k < selected.deep_view().len() ==> has_command(
                                cs,
                                #[trigger] selected.deep_view()[k],
                            ),
                        forall|x: Seq<char>| s0.contains(x) ==> selected.deep_view().contains(x),
                        forall|x: Seq<char>|
                            selected.deep_view().contains(x) ==> reached_from(cs, s0, x),
                        i < cs.len(),
                        c == cs[i as int],
                        selected.deep_view().contains(c.id@),
                        j <= c.depends_on@.len(),
                        start.len() <= selected.deep_view().len(),
                        changed ==> start.len() < selected.deep_view().len(),
                        !changed ==> selected.deep_view() == start,
                        !changed ==> forall|i2: int, j2: int|
                            0 <= i2 < i && 0 <= j2 < cs[i2].depends_on@.len() && start.contains(
                                cs[i2].id@,
                            ) ==> start.contains((#[trigger] cs[i2].depends_on@[j2])@),
                        !changed ==> forall|j2: int|
                            0 <= j2 < j ==> start.contains((#[trigger] c.depends_on@[j2])@),
                    decreases c.depends_on.len() - j,
                {
                    let d = &c.depends_on[j];
                    if !contains_string(selected, d.as_str()) {
                        let ghost sv = selected.deep_view();
                        selected.push(d.clone());
                        proof {
                            let s1 = selected.deep_view();
                            assert(s1 =~= sv.push(d@));
                            assert(cs[i as int].depends_on@[j as int] == *d);
                            assert(has_command(cs, d@));
                            assert forall|k: int| 0 <= k < s1.len() implies has_command(
                                cs,
                                #[trigger] s1[k],
                            ) by {
                                if k < sv.len() {
                                    assert(s1[k] == sv[k]);
                                }
                            }
                            assert(s1.no_duplicates()) by {
                                assert forall|a: int, b: int|
                                    0 <= a < s1.len() && 0 <= b < s1.len() && a != b implies s1[a]
                                    != s1[b] by {
                                    if a < sv.len() && b < sv.len() {
                                        assert(s1[a] == sv[a] && s1[b] == sv[b]);
                                    } else if a < sv.len() {
                                        assert(sv.contains(s1[a]));
                                    } else if b < sv.len() {
                                        assert(sv.contains(s1[b]));
                                    }
                                }
                            }
                            assert(cmd_edge(cs, c.id@, d@)) by {
                                assert(cs[i as int].id@ == c.id@);
                                assert((cs[i as int].depends_on@[j as int])@ == d@);
                            }
                            assert(reached_from(cs, s0, c.id@));
                            let y = choose|y: Seq<char>| s0.contains(y) && #[trigger] cmd_reach(cs, y, c.id@);
                            lemma_reach_step(cs, y, c.id@, d@);
                            assert forall|x: Seq<char>| s1.contains(x) implies reached_from(cs, s0, x) by {
                                if x != d@ {
                                    let k = choose|k: int| 0 <= k < s1.len() && s1[k] == x;
                                    assert(sv[k] == x);
                                }
                            }
                            assert forall|x: Seq<char>| sv.contains(x) implies s1.contains(x) by {
                                let k = choose|k: int| 0 <= k < sv.len() && sv[k] == x;
                                assert(s1[k] == x);
                            }
                            assert(s1.contains(c.id@)) by {
                                assert(sv.contains(c.id@));
                            }
                        }
                        changed = true;
                    }
                    j = j + 1;
                }
                proof {
                    if !changed {
                        assert forall|i2: int, j2: int|
                            0 <= i2 < i + 1 && 0 <= j2 < cs[i2].depends_on@.len() && start.contains(
                                cs[i2].id@,
                            ) implies start.contains((#[trigger] cs[i2].depends_on@[j2])@) by {
                            if i2 == i {
                                assert(c.depends_on@[j2] == cs[i2].depends_on@[j2]);
                            }
                        }
                    }
                }
            }
            i = i + 1;
        }
        if !changed {
            break;
        }
        proof {
            lemma_selection_bound(cs, selected.deep_view());
        }
    }
}

/// The commands to run: all of them when nothing was requested, otherwise the requested
/// commands and everything they depend on, directly or not.
pub fn selected_command_ids(commands: &Vec<CommandConfig>, requested: &Vec<String>) -> (r: Result<
    Vec<String>,
    AppError,
>)
    requires
        deps_known(commands@),
    ensures
        match selection_problem(commands@, requested@) {
            Some(m) => r matches Err(e) && is_invalid_config(e, m),
            None => r matches Ok(s) && forall|x: Seq<char>|
                s.deep_view().contains(x) <==> is_selected(commands@, requested@, x),
        },
{
    let ghost cs = commands@;
    let ghost req = requested@;
    let mut selected: Vec<String> = Vec::new();
    if requested.len() == 0 {
        let mut i: usize = 0;
        while i < commands.len()
            invariant
                cs == commands@,
                i <= cs.len(),
                selected.deep_view().no_duplicates(),
                forall|x: Seq<char>|
                    selected.deep_view().contains(x) <==> exists|m: int|
                        0 <= m < i && (#[trigger] cs[m]).id@ == x,
            decreases cs.len() - i,
        {
            let id = &commands[i].id;
            let ghost sv = selected.deep_view();
            if !contains_string(&selected, id.as_str()) {
                selected.push(id.clone());
                proof {
                    let s1 = selected.deep_view();
                    assert(s1 =~= sv.push(id@));
                    assert(s1.no_duplicates()) by {
                        assert forall|a: int, b: int|
                            0 <= a < s1.len() && 0 <= b < s1.len() && a != b implies s1[a] != s1[b] by {
                            if a < sv.len() && b < sv.len() {
                                assert(s1[a] == sv[a] && s1[b] == sv[b]);
                            } else if a < sv.len() {
                                assert(sv.contains(s1[a]));
                            } else if b < sv.len() {
                                assert(sv.contains(s1[b]));
                            }
                        }
                    }
                    assert forall|x: Seq<char>|
                        s1.contains(x) <==> exists|m: int| 0 <= m < i + 1 && (#[trigger] cs[m]).id@ == x by {
                        if s1.contains(x) && x != id@ {
                            let k = choose|k: int| 0 <= k < s1.len() && s1[k] == x;
                            assert(sv[k] == x);
                            assert(sv.contains(x));
                            let m = choose|m: int| 0 <= m < i && (#[trigger] cs[m]).id@ == x;
                            assert(0 <= m < i + 1);
                        }
                        if s1.contains(x) && x == id@ {
                            assert(cs[i as int].id@ == x);
                        }
                        if exists|m: int| 0 <= m < i + 1 && (#[trigger] cs[m]).id@ == x {
                            let m = choose|m: int| 0 <= m < i + 1 && (#[trigger] cs[m]).id@ == x;
                            if m < i {
                                assert(sv.contains(x));
                                let k = choose|k: int| 0 <= k < sv.len() && sv[k] == x;
                                assert(s1[k] == x);
                            } else {
                                assert(s1[sv.len() as int] == x);
                            }
                        }
                    }
                }
            } else {
                proof {
                    assert forall|x: Seq<char>|
                        sv.contains(x) <==> exists|m: int| 0 <= m < i + 1 && (#[trigger] cs[m]).id@ == x by {
                        if exists|m: int| 0 <= m < i + 1 && (#[trigger] cs[m]).id@ == x {
                            let m = choose|m: int| 0 <= m < i + 1 && (#[trigger] cs[m]).id@ == x;
                            if m == i {
                                assert(sv.contains(id@));
                            }
                        }
                    }
                }
            }
            i = i + 1;
        }
        proof {
            assert(first_problem(request_problems(cs, req), 0, 0) is None);
        }
        return Ok(selected);
    }
    let ghost f = request_problems(cs, req);
    let mut k: usize = 0;
    while k < requested.len()
        invariant
            cs == commands@,
            req == requested@,
            f == request_problems(cs, req),
            k <= req.len(),
            forall|m: int| 0 <= m < k ==> (#[trigger] f(m)) is None,
            selected.deep_view().no_duplicates(),
            forall|m: int|
                0 <= m < selected.deep_view().len() ==> has_command(
                    cs,
                    #[trigger] selected.deep_view()[m],
                ),
            forall|x: Seq<char>|
                selected.deep_view().contains(x) <==> exists|m: int|
                    0 <= m < k && (#[trigger] req[m])@ == x,
        decreases req.len() - k,
    {
        proof {
            lemma_first_problem_skip(f, 0, k as int, req.len() as int);
        }
        let id = &requested[k];
        if !has_command_exec(commands, id.as_str()) {
            return Err(
                AppError::InvalidConfig(join3("requested command `", id.as_str(), "` does not exist")),
            );
        }
        let ghost sv = selected.deep_view();
        if !contains_string(&selected, id.as_str()) {
            selected.push(id.clone());
            proof {
                let s1 = selected.deep_view();
                assert(s1 =~= sv.push(id@));
                assert(s1.no_duplicates()) by {
                    assert forall|a: int, b: int|
                        0 <= a < s1.len() && 0 <= b < s1.len() && a != b implies s1[a] != s1[b] by {
                        if a < sv.len() && b < sv.len() {
                            assert(s1[a] == sv[a] && s1[b] == sv[b]);
                        } else if a < sv.len() {
                            assert(sv.contains(s1[a]));
                        } else if b < sv.len() {
                            assert(sv.contains(s1[b]));
                        }
                    }
                }
                assert forall|m: int| 0 <= m < s1.len() implies has_command(cs, #[trigger] s1[m]) by {
                    if m < sv.len() {
                        assert(s1[m] == sv[m]);
                    }
                }
                assert forall|x: Seq<char>|
                    s1.contains(x) <==> exists|m: int| 0 <= m < k + 1 && (#[trigger] req[m])@ == x by {
                    if s1.contains(x) && x != id@ {
                        let q = choose|q: int| 0 <= q < s1.len() && s1[q] == x;
                        assert(sv[q] == x);
                        assert(sv.contains(x));
                        let m = choose|m: int| 0 <= m < k && (#[trigger] req[m])@ == x;
                        assert(0 <= m < k + 1);
                    }
                    if s1.contains(x) && x == id@ {
                        assert(req[k as int]@ == x);
                    }
                    if exists|m: int| 0 <= m < k + 1 && (#[trigger] req[m])@ == x {
                        let m = choose|m: int| 0 <= m < k + 1 && (#[trigger] req[m])@ == x;
                        if m < k {
                            assert(sv.contains(x));
                            let q = choose|q: int| 0 <= q < sv.len() && sv[q] == x;
                            assert(s1[q] == x);
                        } else {
                            assert(s1[sv.len() as int] == x);
                        }
                    }
                }
            }
        } else {
            proof {
                assert forall|x: Seq<char>|
                    sv.contains(x) <==> exists|m: int| 0 <= m < k + 1 && (#[trigger] req[m])@ == x by {
                    if sv.contains(x) {
                        let m = choose|m: int| 0 <= m < k && (#[trigger] req[m])@ == x;
                        assert(0 <= m < k + 1);
                    }
                    if exists|m: int| 0 <= m < k + 1 && (#[trigger] req[m])@ == x {
                        let m = choose|m: int| 0 <= m < k + 1 && (#[trigger] req[m])@ == x;
                        if m == k {
                            assert(sv.contains(id@));
                        }
                    }
                }
            }
        }
        k = k + 1;
    }
    proof {
        lemma_first_problem_none(f, 0, req.len() as int);
    }
    let ghost s0 = selected.deep_view();
    close_over_dependencies(commands, &mut selected);
    proof {
        let s1 = selected.deep_view();
        assert forall|x: Seq<char>| s1.contains(x) <==> is_selected(cs, req, x) by {
            if s1.contains(x) {
                let y = choose|y: Seq<char>| s0.contains(y) && #[trigger] cmd_reach(cs, y, x);
                let m = choose|m: int| 0 <= m < k && (#[trigger] req[m])@ == y;
                assert(cmd_reach(cs, req[m]@, x));
            }
            if is_selected(cs, req, x) {
                let m = choose|m: int| 0 <= m < req.len() && cmd_reach(cs, (#[trigger] req[m])@, x);
                assert(s0.contains(req[m]@));
                let p = choose|p: Seq<Seq<char>>|
                    p.len() >= 1 && is_cmd_path(cs, p) && p[0] == req[m]@ && p.last() == x;
                lemma_closed_path(cs, s1, p);
            }
        }
    }
    Ok(selected)
}

// ---------------------------------------------------------------- plans

proof fn lemma_deps_known(cs: Seq<CommandConfig>)
    requires
        first_problem(command_dep_problems(cs), 0, cs.len() as int) is None,
    ensures
        deps_known(cs),
{
    lemma_first_problem_none(command_dep_problems(cs), 0, cs.len() as int);
    assert forall|i: int, j: int|
        0 <= i < cs.len() && 0 <= j < cs[i].depends_on@.len() implies has_command(
        cs,
        (#[trigger] cs[i].depends_on@[j])@,
    ) by {
        assert(command_dep_problems(cs)(i) is None);
        lemma_first_problem_none(dep_problems(cs, i), 0, cs[i].depends_on@.len() as int);
        assert(dep_problems(cs, i)(j) is None);
    }
}

/// The plan entry of a configured command.
fn command_spec_from_config(command: CommandConfig) -> (s: CommandSpec)
    ensures
        spec_of_command(command, s),
{
    CommandSpec {
        id: command.id,
        program: command.program,
        args: command.args,
        depends_on: command.depends_on,
        env: command.env,
        cwd: command.cwd,
        timeout_secs: command.timeout_secs,
        retries: command.retries,
        retry_delay_ms: command.retry_delay_ms,
        output_label: None,
        output_phase: None,
        output_model: None,
    }
}

fn lift_error(v: Result<(), AppError>) -> (r: Result<ExecutionPlan, AppError>)
    requires
        v is Err,
    ensures
        r is Err && r->Err_0 == v->Err_0,
{
    match v {
        Err(e) => Err(e),
        Ok(_) => Err(AppError::InvalidConfig(String::new())),
    }
}

/// Builds the plan, `dirs[i]` telling whether the working directory of command `i` exists.
pub fn build_plan_in(config: AppConfig, options: PlanOptions, dirs: &Vec<bool>) -> (r: Result<
    ExecutionPlan,
    AppError,
>)
    requires
        dirs@.len() == config.commands@.len(),
    ensures
        plan_outcome(config, options, dirs@, r),
{
    let ghost c = config;
    let ghost o = options;
    let ghost cs = config.commands@;
    if config.commands.len() == 0 {
        return Err(
            AppError::InvalidConfig(owned("at least one [[commands]] entry is required")),
        );
    }
    let max_concurrency = match options.max_concurrency {
        Some(m) => m,
        None => match config.max_concurrency {
            Some(m) => m,
            None => DEFAULT_MAX_CONCURRENCY,
        },
    };
    if max_concurrency == 0 {
        return Err(AppError::InvalidConfig(owned("max_concurrency must be greater than zero")));
    }
    let v = validate_unique_ids(&config.commands);
    if v.is_err() {
        return lift_error(v);
    }
    let v = validate_command_options(&config.commands, dirs);
    if v.is_err() {
        return lift_error(v);
    }
    let v = validate_dependencies(&config.commands);
    if v.is_err() {
        return lift_error(v);
    }
    assert(plan_structure_check(c, o, dirs@) is None);
    let v = validate_cycles(&config.commands);
    if v.is_err() {
        return lift_error(v);
    }
    proof {
        lemma_deps_known(cs);
    }
    let sel = selected_command_ids(&config.commands, &options.only);
    let selected = match sel {
        Err(e) => {
            return Err(e);
        },
        Ok(s) => s,
    };
    let continue_on_error = match options.continue_on_error {
        Some(b) => b,
        None => match config.continue_on_error {
            Some(b) => b,
            None => false,
        },
    };
    let ghost pred = selected_pred(cs, o.only@);
    let n = config.commands.len();
    let mut rest = config.commands;
    let mut commands: Vec<CommandSpec> = Vec::new();
    let mut k: usize = 0;
    while k < n
        invariant
            pred == selected_pred(cs, o.only@),
            n == cs.len(),
            k <= n,
            rest@ == cs.subrange(k as int, n as int),
            forall|x: Seq<char>| selected.deep_view().contains(x) <==> is_selected(cs, o.only@, x),
            commands@.len() == cs.take(k as int).filter(pred).len(),
            forall|j: int|
                0 <= j < commands@.len() ==> spec_of_command(
                    cs.take(k as int).filter(pred)[j],
                    #[trigger] commands@[j],
                ),
        decreases n - k,
    {
        let ghost before = cs.take(k as int).filter(pred);
        assert(cs.take(k + 1).drop_last() =~= cs.take(k as int));
        assert(cs.take(k + 1).last() == cs[k as int]);
        proof {
            reveal(Seq::filter);
        }
        let command = rest.remove(0);
        assert(command == cs[k as int]);
        assert(rest@ =~= cs.subrange(k + 1, n as int));
        if contains_string(&selected, command.id.as_str()) {
            let ghost c0 = commands@;
            let ghost cmd = command;
            commands.push(command_spec_from_config(command));
            proof {
                let after = cs.take(k + 1).filter(pred);
                assert(pred(cmd));
                assert(after == before.push(cmd));
                assert forall|j: int| 0 <= j < commands@.len() implies spec_of_command(
                    after[j],
                    #[trigger] commands@[j],
                ) by {
                    if j < c0.len() {
                        assert(commands@[j] == c0[j]);
                        assert(after[j] == before[j]);
                    }
                }
            }
        } else {
            proof {
                assert(!pred(command));
                assert(cs.take(k + 1).filter(pred) == before);
            }
        }
        k = k + 1;
    }
    proof {
        assert(cs.take(n as int) =~= cs);
    }
    Ok(ExecutionPlan { max_concurrency, continue_on_error, commands })
}

/// The working directory of each command, in order: what the disk is asked about when a plan
/// is built.
pub fn working_directories(config: &AppConfig) -> (r: Vec<Option<String>>)
    ensures
        r@.len() == config.commands@.len(),
        forall|i: int|
            0 <= i < r@.len() ==> opt_view(#[trigger] r@[i]) == opt_view(config.commands@[i].cwd),
{
    let mut r: Vec<Option<String>> = Vec::new();
    let mut i: usize = 0;
    while i < config.commands.len()
        invariant
            i <= config.commands@.len(),
            r@.len() == i,
            forall|j: int|
                0 <= j < i ==> opt_view(#[trigger] r@[j]) == opt_view(config.commands@[j].cwd),
        decreases config.commands.len() - i,
    {
        r.push(clone_opt(&config.commands[i].cwd));
        i = i + 1;
    }
    r
}

/// Asks the disk, for each directory given, whether it is a directory; where none is given
/// the answer is yes.
fn directories_exist(dirs: &Vec<Option<String>>) -> (r: Vec<bool>)
    ensures
        r@.len() == dirs@.len(),
        forall|i: int| 0 <= i < r@.len() && dirs@[i] is None ==> #[trigger] r@[i],
{
    let mut r: Vec<bool> = Vec::new();
    let mut i: usize = 0;
    while i < dirs.len()
        invariant
            i <= dirs@.len(),
            r@.len() == i,
            forall|j: int| 0 <= j < i && dirs@[j] is None ==> #[trigger] r@[j],
        decreases dirs.len() - i,
    {
        let exists = match &dirs[i] {
            Some(cwd) => directory_exists(cwd.as_str()),
            None => true,
        };
        r.push(exists);
        i = i + 1;
    }
    r
}

/// Builds the plan for a configuration. The disk is asked whether each of
/// `working_directories(config)` that is set is a directory, in order.
pub fn build_plan(config: AppConfig, options: PlanOptions) -> (r: Result<ExecutionPlan, AppError>)
    ensures
        exists|dirs: Seq<bool>|
            dirs.len() == config.commands@.len() && (forall|i: int|
                0 <= i < dirs.len() && config.commands@[i].cwd is None ==> #[trigger] dirs[i])
                && #[trigger] plan_outcome(config, options, dirs, r),
{
    let wanted = working_directories(&config);
    let dirs = directories_exist(&wanted);
    proof {
        assert forall|i: int| 0 <= i < dirs@.len() && config.commands@[i].cwd is None implies #[trigger] dirs@[i] by {
            assert(opt_view(wanted@[i]) == opt_view(config.commands@[i].cwd));
        }
    }
    let ghost d = dirs@;
    let r = build_plan_in(config, options, &dirs);
    assert(plan_outcome(config, options, d, r));
    r
}

/// Every dependency of a planned command is itself in the plan.
pub proof fn lemma_plan_includes_dependencies(
    config: AppConfig,
    options: PlanOptions,
    dirs: Seq<bool>,
    plan: ExecutionPlan,
    i: int,
    j: int,
)
    requires
        plan_outcome(config, options, dirs, Ok(plan)),
        0 <= i < plan.commands@.len(),
        0 <= j < plan.commands@[i].depends_on@.len(),
    ensures
        exists|k: int|
            0 <= k < plan.commands@.len() && (#[trigger] plan.commands@[k]).id@
                == plan.commands@[i].depends_on@[j]@,
{
    let cs = config.commands@;
    let req = options.only@;
    let pred = selected_pred(cs, req);
    let chosen = cs.filter(pred);
    lemma_first_problem_none(
        command_dep_problems(cs),
        0,
        cs.len() as int,
    );
    assert(first_problem(command_dep_problems(cs), 0, cs.len() as int) is None);
    lemma_deps_known(cs);
    let c = chosen[i];
    assert(spec_of_command(c, plan.commands@[i]));
    let d = c.depends_on@[j]@;
    cs.filter_lemma(pred);
    assert(pred(c));
    assert(chosen.contains(c));
    cs.lemma_filter_contains_rev(pred, c);
    let q = choose|q: int| 0 <= q < cs.len() && cs[q] == c;
    assert(has_command(cs, (cs[q].depends_on@[j])@));
    let m = choose|m: int| 0 <= m < cs.len() && (#[trigger] cs[m]).id@ == d;
    assert(is_selected(cs, req, d)) by {
        if req.len() > 0 {
            let kk = choose|kk: int| 0 <= kk < req.len() && cmd_reach(cs, (#[trigger] req[kk])@, c.id@);
            assert(cmd_edge(cs, c.id@, d)) by {
                assert(cs[q].id@ == c.id@);
                assert((cs[q].depends_on@[j])@ == d);
            }
            lemma_reach_step(cs, req[kk]@, c.id@, d);
        }
    }
    assert(pred(cs[m]));
    assert(chosen.contains(cs[m]));
    let k = choose|k: int| 0 <= k < chosen.len() && chosen[k] == cs[m];
    assert(spec_of_command(chosen[k], plan.commands@[k]));
    assert(plan.commands@[k].id@ == d);
}

} // verus!
