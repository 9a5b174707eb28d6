//! Workflow configuration: the command list and the orchestration graph, its validation,
//! and its translation into agent specifications.
use vstd::prelude::*;


use crate::agent::{AgentConfig, AgentSpec, ApprovalMode, NodeKind};
use crate::errors::{
    first_problem, is_invalid_config, lemma_first_problem_none, lemma_first_problem_skip, reports,
    AppError,
};
use crate::graph::{
    cycle_among, distinct_names, edges_view, endpoints_named, is_name_path, name_edge,
    name_on_cycle, names_acyclic, sorted_endpoints,
};
use crate::text::{
    cat, eq_str, has_whitespace, is_blank, owned, replace, replace_char, replace_char_spec,
    replace_spec, spec_has_whitespace, spec_is_blank, spec_trim, trim,
};

verus! {

pub const DEFAULT_CONFIG_PATH: &'static str = "config/orca.default.toml";

/// The whole configuration file. `agents` records whether the file has a legacy `[agents]`
/// table, which is refused.
#[derive(Clone, Debug)]
pub struct AppConfig {
    pub max_concurrency: Option<usize>,
    pub continue_on_error: Option<bool>,
    pub orchestration: Option<OrchestrationConfig>,
    pub agents: bool,
    pub commands: Vec<CommandConfig>,
}

#[derive(Clone, Debug)]
pub struct CommandConfig {
    pub id: String,
    pub program: String,
    pub args: Vec<String>,
    pub depends_on: Vec<String>,
    pub env: Vec<(String, String)>,
    pub cwd: Option<String>,
    pub timeout_secs: Option<u64>,
    pub retries: u32,
    pub retry_delay_ms: Option<u64>,
}

#[derive(Clone, Debug)]
pub struct OrchestrationConfig {
    pub instruction_dir: Option<String>,
    pub artifact_dir: Option<String>,
    pub max_parallel_agents: Option<usize>,
    pub min_successful_planners: Option<usize>,
    pub min_successful_critics: Option<usize>,
    pub max_iterations: Option<usize>,
    pub approval_mode: Option<ApprovalMode>,
    pub defaults: Option<OrchestrationDefaults>,
    pub backends: Vec<BackendProfile>,
    pub nodes: Vec<OrchestrationNode>,
    pub connections: Vec<OrchestrationConnection>,
}

#[derive(Clone, Debug)]
pub struct OrchestrationDefaults {
    pub backend: Option<String>,
    pub model: Option<String>,
    pub timeout_secs: Option<u64>,
    pub retries: Option<u32>,
    pub retry_delay_ms: Option<u64>,
}

#[derive(Clone, Debug)]
pub struct BackendProfile {
    pub id: String,
    pub program: String,
    pub args: Vec<String>,
}

#[derive(Clone, Debug)]
pub struct OrchestrationNode {
    pub id: String,
    pub kind: NodeKind,
    pub evaluation: Option<String>,
    pub output_contract: String,
    pub artifact_dir: Option<String>,
    pub phase_label: Option<String>,
    pub instruction: Option<String>,
    pub backend: Option<String>,
    pub model: Option<String>,
    pub command: Option<String>,
    pub args: Vec<String>,
    pub depends_on: Vec<String>,
    pub resources: Vec<String>,
    pub timeout_secs: Option<u64>,
    pub retries: Option<u32>,
    pub retry_delay_ms: Option<u64>,
    pub inputs: Vec<InputSelector>,
}

#[derive(Clone, Debug)]
pub struct InputSelector {
    pub source: String,
}

#[derive(Clone, Debug)]
pub struct OrchestrationConnection {
    pub from: String,
    pub to: Vec<String>,
    pub condition: Option<BranchCondition>,
}

#[derive(Debug, Clone, Copy, PartialEq, Eq, Structural)]
pub enum BranchCondition {
    True,
    False,
}

/// Sources that stand for values of the run rather than for nodes.
pub open spec fn spec_is_pseudo_source(s: Seq<char>) -> bool {
    s == "goal"@ || s == "feedback"@ || s == "gate-feedback"@
}

/// Connection targets that stand for gates rather than for nodes.
pub open spec fn spec_is_virtual_target(s: Seq<char>) -> bool {
    s == "completion-gate"@ || s == "approval-gate"@
}

pub fn is_pseudo_source(source: &str) -> (r: bool)
    ensures
        r == spec_is_pseudo_source(source@),
{
    eq_str(source, "goal") || eq_str(source, "feedback") || eq_str(source, "gate-feedback")
}

pub fn is_virtual_target(target: &str) -> (r: bool)
    ensures
        r == spec_is_virtual_target(target@),
{
    eq_str(target, "completion-gate") || eq_str(target, "approval-gate")
}

pub fn default_node_kind() -> (r: NodeKind)
    ensures
        r == NodeKind::Agent,
{
    NodeKind::Agent
}

pub fn default_output_contract() -> (r: String)
    ensures
        r@ == "generic"@,
{
    owned("generic")
}

/// `a`, `b` and `c` in sequence.
pub fn join3(a: &str, b: &str, c: &str) -> (r: String)
    ensures
        r@ == a@ + b@ + c@,
{
    let x = cat(a, b);
    cat(x.as_str(), c)
}

/// `a` to `e` in sequence.
pub fn join5(a: &str, b: &str, c: &str, d: &str, e: &str) -> (r: String)
    ensures
        r@ == a@ + b@ + c@ + d@ + e@,
{
    let x = join3(a, b, c);
    let y = cat(x.as_str(), d);
    cat(y.as_str(), e)
}

// ---------------------------------------------------------------- backends

pub open spec fn backend_problem(bs: Seq<BackendProfile>, i: int) -> Option<Seq<char>> {
    let b = bs[i];
    if spec_is_blank(b.id@) {
        Some("backend id must not be empty"@)
    } else if spec_is_blank(b.program@) {
        Some("backend `"@ + b.id@ + "` program must not be empty"@)
    } else if exists|j: int| 0 <= j < i && (#[trigger] bs[j]).id@ == b.id@ {
        Some("duplicate backend id `"@ + b.id@ + "`"@)
    } else {
        None
    }
}

pub open spec fn backend_problems(bs: Seq<BackendProfile>) -> spec_fn(int) -> Option<Seq<char>> {
    |i: int| backend_problem(bs, i)
}

pub open spec fn backends_check(bs: Seq<BackendProfile>) -> Option<Seq<char>> {
    first_problem(backend_problems(bs), 0, bs.len() as int)
}

/// Backend ids are non-empty and unique, and every backend names a program.
pub fn validate_unique_backend_ids(backends: &Vec<BackendProfile>) -> (r: Result<(), AppError>)
    ensures
        reports(r, backends_check(backends@)),
{
    let ghost f = backend_problems(backends@);
    let mut i: usize = 0;
    while i < backends.len()
        invariant
            f == backend_problems(backends@),
            i <= backends@.len(),
            forall|j: int| 0 <= j < i ==> (#[trigger] f(j)) is None,
        decreases backends.len() - i,
    {
        let b = &backends[i];
        proof {
            lemma_first_problem_skip(f, 0, i as int, backends@.len() as int);
        }
        if is_blank(b.id.as_str()) {
            return Err(AppError::InvalidConfig(owned("backend id must not be empty")));
        }
        if is_blank(b.program.as_str()) {
            return Err(
                AppError::InvalidConfig(
                    join3("backend `", b.id.as_str(), "` program must not be empty"),
                ),
            );
        }
        let mut j: usize = 0;
        while j < i
            invariant
                f == backend_problems(backends@),
                i < backends@.len(),
                j <= i,
                !spec_is_blank(backends@[i as int].id@),
                !spec_is_blank(backends@[i as int].program@),
                first_problem(f, 0, backends@.len() as int) == first_problem(
                    f,
                    i as int,
                    backends@.len() as int,
                ),
                forall|m: int| 0 <= m < j ==> (#[trigger] backends@[m]).id@ != backends@[i as int].id@,
            decreases i - j,
        {
            if eq_str(backends[j].id.as_str(), backends[i].id.as_str()) {
                assert(backends@[j as int].id@ == backends@[i as int].id@);
                return Err(
                    AppError::InvalidConfig(
                        join3("duplicate backend id `", backends[i].id.as_str(), "`"),
                    ),
                );
            }
            j = j + 1;
        }
        i = i + 1;
    }
    proof {
        lemma_first_problem_none(f, 0, backends@.len() as int);
    }
    Ok(())
}


// ---------------------------------------------------------------- nodes

/// Backends that a node may name: the configured ones and the built-in `copilot`.
pub open spec fn known_backend(c: OrchestrationConfig, b: Seq<char>) -> bool {
    b == "copilot"@ || exists|k: int| 0 <= k < c.backends@.len() && (#[trigger] c.backends@[k]).id@ == b
}

pub open spec fn opt_blank(o: Option<String>) -> bool {
    match o {
        None => true,
        Some(s) => spec_is_blank(s@),
    }
}

pub open spec fn node_problem(c: OrchestrationConfig, i: int) -> Option<Seq<char>> {
    let n = c.nodes@[i];
    if spec_is_blank(n.id@) {
        Some("node id must not be empty"@)
    } else if spec_has_whitespace(n.id@) {
        Some("node id `"@ + n.id@ + "` must not contain whitespace"@)
    } else if exists|j: int| 0 <= j < i && (#[trigger] c.nodes@[j]).id@ == n.id@ {
        Some("duplicate node id `"@ + n.id@ + "`"@)
    } else if n.command is Some && spec_is_blank(n.command->0@) {
        Some("node `"@ + n.id@ + "` command must not be empty"@)
    } else if n.backend is Some && !known_backend(c, n.backend->0@) {
        Some("node `"@ + n.id@ + "` references unknown backend `"@ + n.backend->0@ + "`"@)
    } else if spec_is_blank(n.output_contract@) {
        Some("node `"@ + n.id@ + "` output_contract must not be empty"@)
    } else if n.kind == NodeKind::Branch && opt_blank(n.evaluation) {
        Some("branch node `"@ + n.id@ + "` must set evaluation"@)
    } else if n.kind == NodeKind::Agent && opt_blank(n.instruction) {
        Some("agent node `"@ + n.id@ + "` must set instruction"@)
    } else {
        None
    }
}

pub open spec fn node_problems(c: OrchestrationConfig) -> spec_fn(int) -> Option<Seq<char>> {
    |i: int| node_problem(c, i)
}

pub open spec fn nodes_check(c: OrchestrationConfig) -> Option<Seq<char>> {
    first_problem(node_problems(c), 0, c.nodes@.len() as int)
}

pub open spec fn node_ids(c: OrchestrationConfig) -> Seq<Seq<char>> {
    c.nodes@.map_values(|n: OrchestrationNode| n.id@)
}

fn known_backend_exec(config: &OrchestrationConfig, b: &str) -> (r: bool)
    ensures
        r == known_backend(*config, b@),
{
    if eq_str(b, "copilot") {
        return true;
    }
    let mut k: usize = 0;
    while k < config.backends.len()
        invariant
            k <= config.backends@.len(),
            forall|m: int| 0 <= m < k ==> (#[trigger] config.backends@[m]).id@ != b@,
            b@ != "copilot"@,
        decreases config.backends.len() - k,
    {
        if eq_str(config.backends[k].id.as_str(), b) {
            return true;
        }
        k = k + 1;
    }
    false
}

fn opt_blank_exec(o: &Option<String>) -> (r: bool)
    ensures
        r == opt_blank(*o),
{
    match o {
        None => true,
        Some(s) => is_blank(s.as_str()),
    }
}

/// Each node has a well-formed unique id, names a known backend, sets its contract, and
/// sets what its kind needs (an evaluation for a branch, an instruction for an agent).
pub fn validate_nodes(config: &OrchestrationConfig) -> (r: Result<(), AppError>)
    ensures
        reports(r, nodes_check(*config)),
{
    let ghost f = node_problems(*config);
    let nn = config.nodes.len();
    let mut i: usize = 0;
    while i < nn
        invariant
            f == node_problems(*config),
            nn == config.nodes@.len(),
            i <= nn,
            forall|j: int| 0 <= j < i ==> (#[trigger] f(j)) is None,
        decreases nn - i,
    {
        proof {
            lemma_first_problem_skip(f, 0, i as int, nn as int);
        }
        let node = &config.nodes[i];
        if is_blank(node.id.as_str()) {
            return Err(AppError::InvalidConfig(owned("node id must not be empty")));
        }
        if has_whitespace(node.id.as_str()) {
            return Err(
                AppError::InvalidConfig(
                    join3("node id `", node.id.as_str(), "` must not contain whitespace"),
                ),
            );
        }
        let mut j: usize = 0;
        while j < i
            invariant
                f == node_problems(*config),
                nn == config.nodes@.len(),
                i < nn,
                j <= i,
                !spec_is_blank(config.nodes@[i as int].id@),
                !spec_has_whitespace(config.nodes@[i as int].id@),
                first_problem(f, 0, nn as int) == first_problem(f, i as int, nn as int),
                forall|m: int|
                    0 <= m < j ==> (#[trigger] config.nodes@[m]).id@ != config.nodes@[i as int].id@,
            decreases i - j,
        {
            if eq_str(config.nodes[j].id.as_str(), config.nodes[i].id.as_str()) {
                assert(config.nodes@[j as int].id@ == config.nodes@[i as int].id@);
                return Err(
                    AppError::InvalidConfig(
                        join3("duplicate node id `", config.nodes[i].id.as_str(), "`"),
                    ),
                );
            }
            j = j + 1;
        }
        let node = &config.nodes[i];
        if let Some(command) = &node.command {
            if is_blank(command.as_str()) {
                return Err(
                    AppError::InvalidConfig(
                        join3("node `", node.id.as_str(), "` command must not be empty"),
                    ),
                );
            }
        }
        if let Some(backend) = &node.backend {
            if !known_backend_exec(config, backend.as_str()) {
                return Err(
                    AppError::InvalidConfig(
                        join5(
                            "node `",
                            node.id.as_str(),
                            "` references unknown backend `",
                            backend.as_str(),
                            "`",
                        ),
                    ),
                );
            }
        }
        if is_blank(node.output_contract.as_str()) {
            return Err(
                AppError::InvalidConfig(
                    join3("node `", node.id.as_str(), "` output_contract must not be empty"),
                ),
            );
        }
        if node.kind == NodeKind::Branch && opt_blank_exec(&node.evaluation) {
            return Err(
                AppError::InvalidConfig(
                    join3("branch node `", node.id.as_str(), "` must set evaluation"),
                ),
            );
        }
        if node.kind == NodeKind::Agent && opt_blank_exec(&node.instruction) {
            return Err(
                AppError::InvalidConfig(
                    join3("agent node `", node.id.as_str(), "` must set instruction"),
                ),
            );
        }
        assert(f(i as int) is None);
        i = i + 1;
    }
    proof {
        lemma_first_problem_none(f, 0, nn as int);
    }
    Ok(())
}

/// Nodes passing validation have distinct ids.
pub proof fn lemma_nodes_ok_distinct(c: OrchestrationConfig)
    requires
        nodes_check(c) is None,
    ensures
        distinct_names(node_ids(c)),
{
    lemma_first_problem_none(node_problems(c), 0, c.nodes@.len() as int);
    assert forall|a: int, b: int|
        0 <= a < node_ids(c).len() && 0 <= b < node_ids(c).len() && a != b implies node_ids(
        c,
    )[a] != node_ids(c)[b] by {
        let (lo, hi) = if a < b {
            (a, b)
        } else {
            (b, a)
        };
        assert(node_problems(c)(hi) is None);
        if c.nodes@[lo].id@ == c.nodes@[hi].id@ {
            assert(!spec_is_blank(c.nodes@[hi].id@));
            assert(!spec_has_whitespace(c.nodes@[hi].id@));
        }
    }
}


// ---------------------------------------------------------------- connections

pub open spec fn has_node(c: OrchestrationConfig, x: Seq<char>) -> bool {
    exists|i: int| 0 <= i < c.nodes@.len() && (#[trigger] c.nodes@[i]).id@ == x
}

pub open spec fn is_branch_node(c: OrchestrationConfig, x: Seq<char>) -> bool {
    exists|i: int|
        0 <= i < c.nodes@.len() && (#[trigger] c.nodes@[i]).id@ == x && c.nodes@[i].kind
            == NodeKind::Branch
}

pub open spec fn target_problem(c: OrchestrationConfig, to: Seq<String>, t: int) -> Option<
    Seq<char>,
> {
    if !has_node(c, to[t]@) && !spec_is_virtual_target(to[t]@) {
        Some("connection target `"@ + to[t]@ + "` does not exist"@)
    } else {
        None
    }
}

pub open spec fn target_problems(c: OrchestrationConfig, to: Seq<String>) -> spec_fn(int) -> Option<
    Seq<char>,
> {
    |t: int| target_problem(c, to, t)
}

pub open spec fn connection_problem(c: OrchestrationConfig, k: int) -> Option<Seq<char>> {
    let cn = c.connections@[k];
    let from = cn.from@;
    if !spec_is_pseudo_source(from) && !has_node(c, from) {
        Some("connection source `"@ + from + "` does not exist"@)
    } else if cn.condition is Some && !is_branch_node(c, from) {
        Some("connection from `"@ + from + "` uses condition but source is not a branch node"@)
    } else if is_branch_node(c, from) && cn.condition is None {
        Some("connection from branch node `"@ + from + "` must set condition"@)
    } else {
        first_problem(target_problems(c, cn.to@), 0, cn.to@.len() as int)
    }
}

pub open spec fn connection_problems(c: OrchestrationConfig) -> spec_fn(int) -> Option<Seq<char>> {
    |k: int| connection_problem(c, k)
}

pub open spec fn has_route(c: OrchestrationConfig, id: Seq<char>, cond: BranchCondition) -> bool {
    exists|k: int|
        0 <= k < c.connections@.len() && (#[trigger] c.connections@[k]).from@ == id
            && c.connections@[k].condition == Some(cond)
}

pub open spec fn branch_problem(c: OrchestrationConfig, i: int) -> Option<Seq<char>> {
    let n = c.nodes@[i];
    if n.kind == NodeKind::Branch && !(has_route(c, n.id@, BranchCondition::True) && has_route(
        c,
        n.id@,
        BranchCondition::False,
    )) {
        Some("branch node `"@ + n.id@ + "` must have true and false outgoing connections"@)
    } else {
        None
    }
}

pub open spec fn branch_problems(c: OrchestrationConfig) -> spec_fn(int) -> Option<Seq<char>> {
    |i: int| branch_problem(c, i)
}

pub open spec fn dependency_problem(c: OrchestrationConfig, i: int, j: int) -> Option<Seq<char>> {
    let n = c.nodes@[i];
    let d = n.depends_on@[j]@;
    if !spec_is_pseudo_source(d) && !has_node(c, d) {
        Some("node `"@ + n.id@ + "` dependency `"@ + d + "` does not exist"@)
    } else {
        None
    }
}

pub open spec fn dependency_problems(c: OrchestrationConfig, i: int) -> spec_fn(int) -> Option<
    Seq<char>,
> {
    |j: int| dependency_problem(c, i, j)
}

pub open spec fn input_problem(c: OrchestrationConfig, i: int, j: int) -> Option<Seq<char>> {
    let n = c.nodes@[i];
    let src = n.inputs@[j].source@;
    if spec_is_blank(src) {
        Some("node `"@ + n.id@ + "` input source must not be empty"@)
    } else if !spec_is_pseudo_source(src) && !has_node(c, src) {
        Some("node `"@ + n.id@ + "` input source `"@ + src + "` does not exist"@)
    } else {
        None
    }
}

pub open spec fn input_problems(c: OrchestrationConfig, i: int) -> spec_fn(int) -> Option<
    Seq<char>,
> {
    |j: int| input_problem(c, i, j)
}

pub open spec fn either(a: Option<Seq<char>>, b: Option<Seq<char>>) -> Option<Seq<char>> {
    if a is Some {
        a
    } else {
        b
    }
}

pub open spec fn reference_problem(c: OrchestrationConfig, i: int) -> Option<Seq<char>> {
    either(
        first_problem(dependency_problems(c, i), 0, c.nodes@[i].depends_on@.len() as int),
        first_problem(input_problems(c, i), 0, c.nodes@[i].inputs@.len() as int),
    )
}

pub open spec fn reference_problems(c: OrchestrationConfig) -> spec_fn(int) -> Option<Seq<char>> {
    |i: int| reference_problem(c, i)
}

/// What `validate_connections` reports: connection endpoints and conditions, then the routes
/// of branch nodes, then the dependencies and inputs of nodes.
pub open spec fn connections_check(c: OrchestrationConfig) -> Option<Seq<char>> {
    either(
        first_problem(connection_problems(c), 0, c.connections@.len() as int),
        either(
            first_problem(branch_problems(c), 0, c.nodes@.len() as int),
            first_problem(reference_problems(c), 0, c.nodes@.len() as int),
        ),
    )
}

fn has_node_exec(config: &OrchestrationConfig, x: &str) -> (r: bool)
    ensures
        r == has_node(*config, x@),
{
    let mut i: usize = 0;
    while i < config.nodes.len()
        invariant
            i <= config.nodes@.len(),
            forall|m: int| 0 <= m < i ==> (#[trigger] config.nodes@[m]).id@ != x@,
        decreases config.nodes.len() - i,
    {
        if eq_str(config.nodes[i].id.as_str(), x) {
            return true;
        }
        i = i + 1;
    }
    false
}

fn is_branch_node_exec(config: &OrchestrationConfig, x: &str) -> (r: bool)
    requires
        distinct_names(node_ids(*config)),
    ensures
        r == is_branch_node(*config, x@),
{
    let mut i: usize = 0;
    while i < config.nodes.len()
        invariant
            distinct_names(node_ids(*config)),
            i <= config.nodes@.len(),
            forall|m: int| 0 <= m < i ==> (#[trigger] config.nodes@[m]).id@ != x@,
        decreases config.nodes.len() - i,
    {
        if eq_str(config.nodes[i].id.as_str(), x) {
            let b = config.nodes[i].kind == NodeKind::Branch;
            proof {
                if !b && is_branch_node(*config, x@) {
                    let m = choose|m: int|
                        0 <= m < config.nodes@.len() && (#[trigger] config.nodes@[m]).id@ == x@
                            && config.nodes@[m].kind == NodeKind::Branch;
                    assert(node_ids(*config)[m] == node_ids(*config)[i as int]);
                }
            }
            return b;
        }
        i = i + 1;
    }
    false
}

fn has_route_exec(config: &OrchestrationConfig, id: &str, cond: BranchCondition) -> (r: bool)
    ensures
        r == has_route(*config, id@, cond),
{
    let mut k: usize = 0;
    while k < config.connections.len()
        invariant
            k <= config.connections@.len(),
            forall|m: int|
                0 <= m < k ==> !((#[trigger] config.connections@[m]).from@ == id@
                    && config.connections@[m].condition == Some(cond)),
        decreases config.connections.len() - k,
    {
        if eq_str(config.connections[k].from.as_str(), id)
            && config.connections[k].condition == Some(cond) {
            return true;
        }
        k = k + 1;
    }
    false
}

fn validate_targets(config: &OrchestrationConfig, to: &Vec<String>) -> (r: Result<(), AppError>)
    ensures
        reports(r, first_problem(target_problems(*config, to@), 0, to@.len() as int)),
{
    let ghost f = target_problems(*config, to@);
    let mut t: usize = 0;
    while t < to.len()
        invariant
            f == target_problems(*config, to@),
            t <= to@.len(),
            forall|j: int| 0 <= j < t ==> (#[trigger] f(j)) is None,
        decreases to.len() - t,
    {
        proof {
            lemma_first_problem_skip(f, 0, t as int, to@.len() as int);
        }
        if !has_node_exec(config, to[t].as_str()) && !is_virtual_target(to[t].as_str()) {
            return Err(
                AppError::InvalidConfig(
                    join3("connection target `", to[t].as_str(), "` does not exist"),
                ),
            );
        }
        t = t + 1;
    }
    proof {
        lemma_first_problem_none(f, 0, to@.len() as int);
    }
    Ok(())
}

fn validate_node_references(config: &OrchestrationConfig, i: usize) -> (r: Result<(), AppError>)
    requires
        i < config.nodes@.len(),
    ensures
        reports(r, reference_problem(*config, i as int)),
{
    let node = &config.nodes[i];
    let ghost f = dependency_problems(*config, i as int);
    let mut j: usize = 0;
    while j < node.depends_on.len()
        invariant
            f == dependency_problems(*config, i as int),
            node == config.nodes@[i as int],
            j <= node.depends_on@.len(),
            forall|m: int| 0 <= m < j ==> (#[trigger] f(m)) is None,
        decreases node.depends_on.len() - j,
    {
        proof {
            lemma_first_problem_skip(f, 0, j as int, node.depends_on@.len() as int);
        }
        let d = &node.depends_on[j];
        if !is_pseudo_source(d.as_str()) && !has_node_exec(config, d.as_str()) {
            return Err(
                AppError::InvalidConfig(
                    join5("node `", node.id.as_str(), "` dependency `", d.as_str(), "` does not exist"),
                ),
            );
        }
        j = j + 1;
    }
    proof {
        lemma_first_problem_none(f, 0, node.depends_on@.len() as int);
    }
    let ghost g = input_problems(*config, i as int);
    let mut j: usize = 0;
    while j < node.inputs.len()
        invariant
            g == input_problems(*config, i as int),
            f == dependency_problems(*config, i as int),
            node == config.nodes@[i as int],
            first_problem(f, 0, node.depends_on@.len() as int) is None,
            j <= node.inputs@.len(),
            forall|m: int| 0 <= m < j ==> (#[trigger] g(m)) is None,
        decreases node.inputs.len() - j,
    {
        proof {
            lemma_first_problem_skip(g, 0, j as int, node.inputs@.len() as int);
        }
        let src = &node.inputs[j].source;
        if is_blank(src.as_str()) {
            return Err(
                AppError::InvalidConfig(
                    join3("node `", node.id.as_str(), "` input source must not be empty"),
                ),
            );
        }
        if !is_pseudo_source(src.as_str()) && !has_node_exec(config, src.as_str()) {
            return Err(
                AppError::InvalidConfig(
                    join5("node `", node.id.as_str(), "` input source `", src.as_str(), "` does not exist"),
                ),
            );
        }
        j = j + 1;
    }
    proof {
        lemma_first_problem_none(g, 0, node.inputs@.len() as int);
    }
    Ok(())
}

/// Branch nodes need a `true` and a `false` outgoing connection.
pub fn validate_branch_routes(config: &OrchestrationConfig) -> (r: Result<(), AppError>)
    ensures
        reports(r, first_problem(branch_problems(*config), 0, config.nodes@.len() as int)),
{
    let ghost f = branch_problems(*config);
    let mut i: usize = 0;
    while i < config.nodes.len()
        invariant
            f == branch_problems(*config),
            i <= config.nodes@.len(),
            forall|j: int| 0 <= j < i ==> (#[trigger] f(j)) is None,
        decreases config.nodes.len() - i,
    {
        proof {
            lemma_first_problem_skip(f, 0, i as int, config.nodes@.len() as int);
        }
        let branch = &config.nodes[i];
        if branch.kind == NodeKind::Branch {
            let has_true = has_route_exec(config, branch.id.as_str(), BranchCondition::True);
            let has_false = has_route_exec(config, branch.id.as_str(), BranchCondition::False);
            if !has_true || !has_false {
                return Err(
                    AppError::InvalidConfig(
                        join3(
                            "branch node `",
                            branch.id.as_str(),
                            "` must have true and false outgoing connections",
                        ),
                    ),
                );
            }
        }
        i = i + 1;
    }
    proof {
        lemma_first_problem_none(f, 0, config.nodes@.len() as int);
    }
    Ok(())
}

/// Connection endpoints exist (or are pseudo sources and virtual targets), conditions are used
/// exactly on connections from branch nodes, branch nodes have both routes, and node
/// dependencies and inputs name existing nodes or pseudo sources.
pub fn validate_connections(config: &OrchestrationConfig) -> (r: Result<(), AppError>)
    requires
        distinct_names(node_ids(*config)),
    ensures
        reports(r, connections_check(*config)),
{
    let ghost f = connection_problems(*config);
    let nc = config.connections.len();
    let mut k: usize = 0;
    while k < nc
        invariant
            f == connection_problems(*config),
            distinct_names(node_ids(*config)),
            nc == config.connections@.len(),
            k <= nc,
            forall|j: int| 0 <= j < k ==> (#[trigger] f(j)) is None,
        decreases nc - k,
    {
        proof {
            lemma_first_problem_skip(f, 0, k as int, nc as int);
        }
        let cn = &config.connections[k];
        let from = cn.from.as_str();
        let source_exists = has_node_exec(config, from);
        let source_branch = is_branch_node_exec(config, from);
        if !is_pseudo_source(from) && !source_exists {
            return Err(
                AppError::InvalidConfig(join3("connection source `", from, "` does not exist")),
            );
        }
        if cn.condition.is_some() && !source_branch {
            return Err(
                AppError::InvalidConfig(
                    join3(
                        "connection from `",
                        from,
                        "` uses condition but source is not a branch node",
                    ),
                ),
            );
        }
        if source_branch && cn.condition.is_none() {
            return Err(
                AppError::InvalidConfig(
                    join3("connection from branch node `", from, "` must set condition"),
                ),
            );
        }
        let t = validate_targets(config, &cn.to);
        if t.is_err() {
            return t;
        }
        k = k + 1;
    }
    proof {
        lemma_first_problem_none(f, 0, nc as int);
    }
    let b = validate_branch_routes(config);
    if b.is_err() {
        return b;
    }
    let ghost g = reference_problems(*config);
    let nn = config.nodes.len();
    let mut i: usize = 0;
    while i < nn
        invariant
            g == reference_problems(*config),
            f == connection_problems(*config),
            nc == config.connections@.len(),
            first_problem(f, 0, nc as int) is None,
            first_problem(branch_problems(*config), 0, config.nodes@.len() as int) is None,
            nn == config.nodes@.len(),
            i <= nn,
            forall|j: int| 0 <= j < i ==> (#[trigger] g(j)) is None,
        decreases nn - i,
    {
        proof {
            lemma_first_problem_skip(g, 0, i as int, nn as int);
        }
        let r = validate_node_references(config, i);
        if r.is_err() {
            return r;
        }
        i = i + 1;
    }
    proof {
        lemma_first_problem_none(g, 0, nn as int);
    }
    Ok(())
}


// ---------------------------------------------------------------- cycles

/// `a` waits for `b`: `b` is a non-pseudo dependency of node `a`, or a connection from the
/// non-pseudo source `b` targets the non-virtual `a`.
pub open spec fn dep_edge(c: OrchestrationConfig, a: Seq<char>, b: Seq<char>) -> bool {
    (exists|i: int, j: int|
        0 <= i < c.nodes@.len() && 0 <= j < c.nodes@[i].depends_on@.len() && c.nodes@[i].id@
            == a && (#[trigger] c.nodes@[i].depends_on@[j])@ == b && !spec_is_pseudo_source(b))
        || (exists|k: int, t: int|
        0 <= k < c.connections@.len() && 0 <= t < c.connections@[k].to@.len()
            && !spec_is_pseudo_source(c.connections@[k].from@) && (#[trigger] c.connections@[k].to@[t])@
            == a && !spec_is_virtual_target(a) && c.connections@[k].from@ == b)
}

pub open spec fn is_dep_path(c: OrchestrationConfig, p: Seq<Seq<char>>) -> bool {
    p.len() >= 2 && forall|i: int| 0 <= i < p.len() - 1 ==> #[trigger] dep_edge(c, p[i], p[i + 1])
}

/// No node waits, directly or through others, for itself.
pub open spec fn deps_acyclic(c: OrchestrationConfig) -> bool {
    forall|p: Seq<Seq<char>>| is_dep_path(c, p) ==> p[0] != p.last()
}

pub open spec fn on_dep_cycle(c: OrchestrationConfig, x: Seq<char>) -> bool {
    exists|p: Seq<Seq<char>>| is_dep_path(c, p) && p[0] == x && p.last() == x
}

pub open spec fn cycle_message(x: Seq<char>) -> Seq<char> {
    "orchestration dependency cycle includes `"@ + x + "`"@
}

proof fn lemma_paths_agree(c: OrchestrationConfig, es: Seq<(Seq<char>, Seq<char>)>)
    requires
        forall|a: Seq<char>, b: Seq<char>| name_edge(es, a, b) <==> dep_edge(c, a, b),
    ensures
        forall|p: Seq<Seq<char>>| is_name_path(es, p) <==> is_dep_path(c, p),
{
    assert forall|p: Seq<Seq<char>>| is_name_path(es, p) <==> is_dep_path(c, p) by {
        if is_name_path(es, p) {
            assert forall|i: int| 0 <= i < p.len() - 1 implies #[trigger] dep_edge(
                c,
                p[i],
                p[i + 1],
            ) by {
                assert(name_edge(es, p[i], p[i + 1]));
            }
        }
        if is_dep_path(c, p) {
            assert forall|i: int| 0 <= i < p.len() - 1 implies #[trigger] name_edge(
                es,
                p[i],
                p[i + 1],
            ) by {
                assert(dep_edge(c, p[i], p[i + 1]));
            }
        }
    }
}

/// The dependency edges of the graph, node dependencies first, then connections.
fn dependency_edges(config: &OrchestrationConfig) -> (edges: Vec<(String, String)>)
    ensures
        forall|a: Seq<char>, b: Seq<char>|
            name_edge(edges_view(edges@), a, b) <==> dep_edge(*config, a, b),
{
    let mut edges: Vec<(String, String)> = Vec::new();
    let mut i: usize = 0;
    while i < config.nodes.len()
        invariant
            i <= config.nodes@.len(),
            forall|a: Seq<char>, b: Seq<char>|
                name_edge(edges_view(edges@), a, b) <==> exists|i2: int, j2: int|
                    0 <= i2 < i && 0 <= j2 < config.nodes@[i2].depends_on@.len()
                        && config.nodes@[i2].id@ == a && (#[trigger] config.nodes@[i2].depends_on@[j2])@
                        == b && !spec_is_pseudo_source(b),
        decreases config.nodes.len() - i,
    {
        let node = &config.nodes[i];
        let mut j: usize = 0;
        while j < node.depends_on.len()
            invariant
                i < config.nodes@.len(),
                node == config.nodes@[i as int],
                j <= node.depends_on@.len(),
                forall|a: Seq<char>, b: Seq<char>|
                    name_edge(edges_view(edges@), a, b) <==> (exists|i2: int, j2: int|
                        0 <= i2 < i && 0 <= j2 < config.nodes@[i2].depends_on@.len()
                            && config.nodes@[i2].id@ == a
                            && (#[trigger] config.nodes@[i2].depends_on@[j2])@ == b
                            && !spec_is_pseudo_source(b)) || (exists|j2: int|
                        0 <= j2 < j && node.id@ == a && (#[trigger] node.depends_on@[j2])@ == b
                            && !spec_is_pseudo_source(b)),
            decreases node.depends_on.len() - j,
        {
            let d = &node.depends_on[j];
            if !is_pseudo_source(d.as_str()) {
                let ghost e0 = edges_view(edges@);
                edges.push((node.id.clone(), d.clone()));
                proof {
                    let e1 = edges_view(edges@);
                    assert(e1 =~= e0.push((node.id@, d@)));
                    assert forall|a: Seq<char>, b: Seq<char>|
                        name_edge(e1, a, b) <==> (name_edge(e0, a, b) || (a == node.id@ && b
                            == d@)) by {
                        if name_edge(e1, a, b) {
                            let m = choose|m: int| 0 <= m < e1.len() && #[trigger] e1[m] == (a, b);
                            if m < e0.len() {
                                assert(e0[m] == e1[m]);
                            }
                        }
                        if name_edge(e0, a, b) {
                            let m = choose|m: int| 0 <= m < e0.len() && #[trigger] e0[m] == (a, b);
                            assert(e1[m] == e0[m]);
                        }
                        if a == node.id@ && b == d@ {
                            assert(e1[e0.len() as int] == (a, b));
                        }
                    }
                }
            }
            j = j + 1;
        }
        proof {
            assert forall|a: Seq<char>, b: Seq<char>|
                name_edge(edges_view(edges@), a, b) <==> exists|i2: int, j2: int|
                    0 <= i2 < i + 1 && 0 <= j2 < config.nodes@[i2].depends_on@.len()
                        && config.nodes@[i2].id@ == a && (#[trigger] config.nodes@[i2].depends_on@[j2])@
                        == b && !spec_is_pseudo_source(b) by {
                if exists|j2: int|
                    0 <= j2 < j && node.id@ == a && (#[trigger] node.depends_on@[j2])@ == b
                        && !spec_is_pseudo_source(b) {
                    let j2 = choose|j2: int|
                        0 <= j2 < j && node.id@ == a && (#[trigger] node.depends_on@[j2])@ == b
                            && !spec_is_pseudo_source(b);
                    assert(config.nodes@[i as int].depends_on@[j2] == node.depends_on@[j2]);
                }
                if exists|i2: int, j2: int|
                    0 <= i2 < i + 1 && 0 <= j2 < config.nodes@[i2].depends_on@.len()
                        && config.nodes@[i2].id@ == a && (#[trigger] config.nodes@[i2].depends_on@[j2])@
                        == b && !spec_is_pseudo_source(b) {
                    let (i2, j2) = choose|i2: int, j2: int|
                        0 <= i2 < i + 1 && 0 <= j2 < config.nodes@[i2].depends_on@.len()
                            && config.nodes@[i2].id@ == a
                            && (#[trigger] config.nodes@[i2].depends_on@[j2])@ == b
                            && !spec_is_pseudo_source(b);
                    if i2 == i {
                        assert(node.depends_on@[j2] == config.nodes@[i2].depends_on@[j2]);
                    }
                }
            }
        }
        i = i + 1;
    }
    let ghost node_part = edges_view(edges@);
    let mut k: usize = 0;
    while k < config.connections.len()
        invariant
            i == config.nodes@.len(),
            k <= config.connections@.len(),
            forall|a: Seq<char>, b: Seq<char>|
                name_edge(edges_view(edges@), a, b) <==> (exists|i2: int, j2: int|
                    0 <= i2 < i && 0 <= j2 < config.nodes@[i2].depends_on@.len()
                        && config.nodes@[i2].id@ == a && (#[trigger] config.nodes@[i2].depends_on@[j2])@
                        == b && !spec_is_pseudo_source(b)) || (exists|k2: int, t2: int|
                    0 <= k2 < k && 0 <= t2 < config.connections@[k2].to@.len()
                        && !spec_is_pseudo_source(config.connections@[k2].from@)
                        && (#[trigger] config.connections@[k2].to@[t2])@ == a
                        && !spec_is_virtual_target(a) && config.connections@[k2].from@ == b),
        decreases config.connections.len() - k,
    {
        let cn = &config.connections[k];
        if !is_pseudo_source(cn.from.as_str()) {
            let mut t: usize = 0;
            while t < cn.to.len()
                invariant
                    i == config.nodes@.len(),
                    k < config.connections@.len(),
                    cn == config.connections@[k as int],
                    !spec_is_pseudo_source(cn.from@),
                    t <= cn.to@.len(),
                    forall|a: Seq<char>, b: Seq<char>|
                        name_edge(edges_view(edges@), a, b) <==> (exists|i2: int, j2: int|
                            0 <= i2 < i && 0 <= j2 < config.nodes@[i2].depends_on@.len()
                                && config.nodes@[i2].id@ == a
                                && (#[trigger] config.nodes@[i2].depends_on@[j2])@ == b
                                && !spec_is_pseudo_source(b)) || (exists|k2: int, t2: int|
                            0 <= k2 < k && 0 <= t2 < config.connections@[k2].to@.len()
                                && !spec_is_pseudo_source(config.connections@[k2].from@)
                                && (#[trigger] config.connections@[k2].to@[t2])@ == a
                                && !spec_is_virtual_target(a) && config.connections@[k2].from@ == b)
                            || (exists|t2: int|
                            0 <= t2 < t && (#[trigger] cn.to@[t2])@ == a && !spec_is_virtual_target(
                                a,
                            ) && cn.from@ == b),
                decreases cn.to.len() - t,
            {
                let target = &cn.to[t];
                if !is_virtual_target(target.as_str()) {
                    let ghost e0 = edges_view(edges@);
                    edges.push((target.clone(), cn.from.clone()));
                    proof {
                        let e1 = edges_view(edges@);
                        assert(e1 =~= e0.push((target@, cn.from@)));
                        assert forall|a: Seq<char>, b: Seq<char>|
                            name_edge(e1, a, b) <==> (name_edge(e0, a, b) || (a == target@ && b
                                == cn.from@)) by {
                            if name_edge(e1, a, b) {
                                let m = choose|m: int| 0 <= m < e1.len() && #[trigger] e1[m] == (a, b);
                                if m < e0.len() {
                                    assert(e0[m] == e1[m]);
                                }
                            }
                            if name_edge(e0, a, b) {
                                let m = choose|m: int| 0 <= m < e0.len() && #[trigger] e0[m] == (a, b);
                                assert(e1[m] == e0[m]);
                            }
                            if a == target@ && b == cn.from@ {
                                assert(e1[e0.len() as int] == (a, b));
                            }
                        }
                    }
                }
                t = t + 1;
            }
            proof {
                assert forall|a: Seq<char>, b: Seq<char>|
                    (exists|t2: int|
                        0 <= t2 < t && (#[trigger] cn.to@[t2])@ == a && !spec_is_virtual_target(a)
                            && cn.from@ == b) implies #[trigger] name_edge(edges_view(edges@), a, b) && (exists|k2: int, t2: int|
                        0 <= k2 < k + 1 && 0 <= t2 < config.connections@[k2].to@.len()
                            && !spec_is_pseudo_source(config.connections@[k2].from@)
                            && (#[trigger] config.connections@[k2].to@[t2])@ == a
                            && !spec_is_virtual_target(a) && config.connections@[k2].from@ == b) by {
                    let t2 = choose|t2: int|
                        0 <= t2 < t && (#[trigger] cn.to@[t2])@ == a && !spec_is_virtual_target(a)
                            && cn.from@ == b;
                    assert(config.connections@[k as int].to@[t2] == cn.to@[t2]);
                }
            }
        }
        proof {
            assert forall|a: Seq<char>, b: Seq<char>|
                (exists|k2: int, t2: int|
                    0 <= k2 < k + 1 && 0 <= t2 < config.connections@[k2].to@.len()
                        && !spec_is_pseudo_source(config.connections@[k2].from@)
                        && (#[trigger] config.connections@[k2].to@[t2])@ == a
                        && !spec_is_virtual_target(a) && config.connections@[k2].from@ == b)
                    implies name_edge(edges_view(edges@), a, b) by {
                let (k2, t2) = choose|k2: int, t2: int|
                    0 <= k2 < k + 1 && 0 <= t2 < config.connections@[k2].to@.len()
                        && !spec_is_pseudo_source(config.connections@[k2].from@)
                        && (#[trigger] config.connections@[k2].to@[t2])@ == a
                        && !spec_is_virtual_target(a) && config.connections@[k2].from@ == b;
                if k2 == k {
                    assert(cn.to@[t2] == config.connections@[k2].to@[t2]);
                }
            }
        }
        k = k + 1;
    }
    edges
}

/// The dependency graph has no cycle.
pub fn validate_no_cycles(config: &OrchestrationConfig) -> (r: Result<(), AppError>)
    ensures
        r is Ok <==> deps_acyclic(*config),
        r is Err ==> exists|x: Seq<char>|
            on_dep_cycle(*config, x) && #[trigger] is_invalid_config(r->Err_0, cycle_message(x)),
{
    let edges = dependency_edges(config);
    let names = sorted_endpoints(&edges);
    let found = cycle_among(&names, &edges);
    proof {
        lemma_paths_agree(*config, edges_view(edges@));
    }
    match found {
        None => Ok(()),
        Some(x) => {
            let e = AppError::InvalidConfig(
                join3("orchestration dependency cycle includes `", names[x].as_str(), "`"),
            );
            proof {
                let nx = names.deep_view()[x as int];
                assert(names@[x as int]@ == nx);
                let p = choose|p: Seq<Seq<char>>|
                    is_name_path(edges_view(edges@), p) && p[0] == nx && p.last() == nx;
                assert(is_dep_path(*config, p));
                assert(on_dep_cycle(*config, nx));
                assert(!deps_acyclic(*config));
            }
            let r: Result<(), AppError> = Err(e);
            proof {
                let nx = names.deep_view()[x as int];
                assert(is_invalid_config(r->Err_0, cycle_message(nx)));
            }
            r
        },
    }
}

/// What validation refuses before looking for cycles.
pub open spec fn structure_check(c: OrchestrationConfig) -> Option<Seq<char>> {
    if c.nodes@.len() == 0 {
        Some("orchestration.nodes must contain at least one node"@)
    } else {
        either(backends_check(c.backends@), either(nodes_check(c), connections_check(c)))
    }
}

/// A configuration is valid when its structure is and its dependencies have no cycle.
pub open spec fn config_valid(c: OrchestrationConfig) -> bool {
    structure_check(c) is None && deps_acyclic(c)
}

/// In a valid configuration every input of every node reads from `goal`, `feedback`,
/// `gate-feedback` or a node of the configuration, and is not blank; every dependency is one
/// of those words or a node too.
pub proof fn lemma_valid_references_exist(c: OrchestrationConfig, i: int)
    requires
        config_valid(c),
        0 <= i < c.nodes@.len(),
    ensures
        forall|j: int|
            0 <= j < c.nodes@[i].inputs@.len() ==> {
                let src = (#[trigger] c.nodes@[i].inputs@[j]).source@;
                &&& !spec_is_blank(src)
                &&& (src == "goal"@ || src == "feedback"@ || src == "gate-feedback"@ || exists|k: int|
                    0 <= k < c.nodes@.len() && c.nodes@[k].id@ == src)
            },
        forall|j: int|
            0 <= j < c.nodes@[i].depends_on@.len() ==> {
                let d = (#[trigger] c.nodes@[i].depends_on@[j])@;
                d == "goal"@ || d == "feedback"@ || d == "gate-feedback"@ || exists|k: int|
                    0 <= k < c.nodes@.len() && c.nodes@[k].id@ == d
            },
{
    let n = c.nodes@.len() as int;
    assert(connections_check(c) is None);
    lemma_first_problem_none(reference_problems(c), 0, n);
    assert(reference_problems(c)(i) is None);
    assert(reference_problem(c, i) is None);
    let ni = c.nodes@[i];
    lemma_first_problem_none(input_problems(c, i), 0, ni.inputs@.len() as int);
    lemma_first_problem_none(dependency_problems(c, i), 0, ni.depends_on@.len() as int);
    assert forall|j: int| 0 <= j < ni.inputs@.len() implies {
        let src = (#[trigger] c.nodes@[i].inputs@[j]).source@;
        &&& !spec_is_blank(src)
        &&& (src == "goal"@ || src == "feedback"@ || src == "gate-feedback"@ || exists|k: int|
            0 <= k < c.nodes@.len() && c.nodes@[k].id@ == src)
    } by {
        assert(input_problems(c, i)(j) is None);
        assert(input_problem(c, i, j) is None);
    }
    assert forall|j: int| 0 <= j < ni.depends_on@.len() implies {
        let d = (#[trigger] c.nodes@[i].depends_on@[j])@;
        d == "goal"@ || d == "feedback"@ || d == "gate-feedback"@ || exists|k: int|
            0 <= k < c.nodes@.len() && c.nodes@[k].id@ == d
    } by {
        assert(dependency_problems(c, i)(j) is None);
        assert(dependency_problem(c, i, j) is None);
    }
}

impl OrchestrationConfig {
    /// Accepts exactly the valid configurations; a structural problem is reported with the
    /// message of the first one found, and a cycle by a node that lies on one.
    pub fn validate(&self) -> (r: Result<(), AppError>)
        ensures
            r is Ok <==> config_valid(*self),
            structure_check(*self) is Some ==> reports(r, structure_check(*self)),
            structure_check(*self) is None && r is Err ==> exists|x: Seq<char>|
                on_dep_cycle(*self, x) && #[trigger] is_invalid_config(r->Err_0, cycle_message(x)),
    {
        if self.nodes.len() == 0 {
            return Err(
                AppError::InvalidConfig(owned("orchestration.nodes must contain at least one node")),
            );
        }
        let b = validate_unique_backend_ids(&self.backends);
        if b.is_err() {
            return b;
        }
        let n = validate_nodes(self);
        if n.is_err() {
            return n;
        }
        proof {
            lemma_nodes_ok_distinct(*self);
        }
        let c = validate_connections(self);
        if c.is_err() {
            return c;
        }
        validate_no_cycles(self)
    }
}


// ---------------------------------------------------------------- dependency expansion

pub open spec fn is_agent_node(c: OrchestrationConfig, x: Seq<char>) -> bool {
    exists|i: int|
        0 <= i < c.nodes@.len() && (#[trigger] c.nodes@[i]).id@ == x && c.nodes@[i].kind
            == NodeKind::Agent
}

/// A node that is not an agent (a branch, gate, ...): dependencies reach through it.
pub open spec fn is_relay_node(c: OrchestrationConfig, x: Seq<char>) -> bool {
    has_node(c, x) && !is_agent_node(c, x)
}

/// A connection from `f` targets `x`.
pub open spec fn is_conn_dep(c: OrchestrationConfig, x: Seq<char>, f: Seq<char>) -> bool {
    exists|k: int, t: int|
        0 <= k < c.connections@.len() && 0 <= t < c.connections@[k].to@.len()
            && (#[trigger] c.connections@[k].to@[t])@ == x && c.connections@[k].from@ == f
}

/// `u` is upstream of node `x`: a declared dependency of `x` or the source of a connection to it.
pub open spec fn upstream(c: OrchestrationConfig, x: Seq<char>, u: Seq<char>) -> bool {
    (exists|i: int, j: int|
        0 <= i < c.nodes@.len() && 0 <= j < c.nodes@[i].depends_on@.len() && c.nodes@[i].id@
            == x && (#[trigger] c.nodes@[i].depends_on@[j])@ == u) || is_conn_dep(c, x, u)
}

/// A walk without repetition through relay nodes ending at an agent node.
pub open spec fn relay_path(c: OrchestrationConfig, p: Seq<Seq<char>>) -> bool {
    &&& p.len() >= 1
    &&& p.no_duplicates()
    &&& is_agent_node(c, p.last())
    &&& forall|i: int|
        0 <= i < p.len() - 1 ==> is_relay_node(c, #[trigger] p[i]) && upstream(c, p[i], p[i + 1])
}

/// From `d`, avoiding the relay nodes in `avoid`, the agent node `t` can be reached.
pub open spec fn reaches_agent(
    c: OrchestrationConfig,
    d: Seq<char>,
    t: Seq<char>,
    avoid: Seq<Seq<char>>,
) -> bool {
    exists|p: Seq<Seq<char>>|
        #![trigger relay_path(c, p), p[0], p.last()]
        relay_path(c, p) && p[0] == d && p.last() == t && forall|i: int|
            0 <= i < p.len() - 1 ==> !avoid.contains(#[trigger] p[i])
}

/// One of the first `n` entries of `us` reaches `t`.
pub open spec fn reached_by(
    c: OrchestrationConfig,
    us: Seq<Seq<char>>,
    n: int,
    t: Seq<char>,
    avoid: Seq<Seq<char>>,
) -> bool {
    exists|k: int| 0 <= k < n && reaches_agent(c, #[trigger] us[k], t, avoid)
}

fn find_node(config: &OrchestrationConfig, x: &str) -> (r: Option<usize>)
    requires
        distinct_names(node_ids(*config)),
    ensures
        r is None <==> !has_node(*config, x@),
        r matches Some(i) ==> i < config.nodes@.len() && config.nodes@[i as int].id@ == x@,
        r matches Some(i) ==> (is_agent_node(*config, x@) <==> config.nodes@[i as int].kind
            == NodeKind::Agent),
{
    let mut i: usize = 0;
    while i < config.nodes.len()
        invariant
            distinct_names(node_ids(*config)),
            i <= config.nodes@.len(),
            forall|m: int| 0 <= m < i ==> (#[trigger] config.nodes@[m]).id@ != x@,
        decreases config.nodes.len() - i,
    {
        if eq_str(config.nodes[i].id.as_str(), x) {
            proof {
                if is_agent_node(*config, x@) {
                    let m = choose|m: int|
                        0 <= m < config.nodes@.len() && (#[trigger] config.nodes@[m]).id@ == x@
                            && config.nodes@[m].kind == NodeKind::Agent;
                    assert(node_ids(*config)[m] == node_ids(*config)[i as int]);
                }
                if config.nodes@[i as int].kind == NodeKind::Agent {
                    assert(config.nodes@[i as int].id@ == x@);
                    assert(is_agent_node(*config, x@));
                }
            }
            return Some(i);
        }
        i = i + 1;
    }
    None
}

pub(crate) fn contains_string(v: &Vec<String>, s: &str) -> (r: bool)
    ensures
        r == v.deep_view().contains(s@),
{
    let mut i: usize = 0;
    while i < v.len()
        invariant
            i <= v@.len(),
            forall|m: int| 0 <= m < i ==> v.deep_view()[m] != s@,
        decreases v.len() - i,
    {
        if eq_str(v[i].as_str(), s) {
            assert(v.deep_view()[i as int] == s@);
            return true;
        }
        i = i + 1;
    }
    false
}

/// The sources of the connections that target `x`, in connection order.
fn connection_sources(config: &OrchestrationConfig, x: &str) -> (r: Vec<String>)
    ensures
        forall|f: Seq<char>| r.deep_view().contains(f) <==> is_conn_dep(*config, x@, f),
{
    let mut r: Vec<String> = Vec::new();
    let mut k: usize = 0;
    while k < config.connections.len()
        invariant
            k <= config.connections@.len(),
            forall|f: Seq<char>|
                r.deep_view().contains(f) <==> exists|k2: int, t2: int|
                    0 <= k2 < k && 0 <= t2 < config.connections@[k2].to@.len()
                        && (#[trigger] config.connections@[k2].to@[t2])@ == x@
                        && config.connections@[k2].from@ == f,
        decreases config.connections.len() - k,
    {
        let cn = &config.connections[k];
        let mut t: usize = 0;
        while t < cn.to.len()
            invariant
                k < config.connections@.len(),
                cn == config.connections@[k as int],
                t <= cn.to@.len(),
                forall|f: Seq<char>|
                    r.deep_view().contains(f) <==> (exists|k2: int, t2: int|
                        0 <= k2 < k && 0 <= t2 < config.connections@[k2].to@.len()
                            && (#[trigger] config.connections@[k2].to@[t2])@ == x@
                            && config.connections@[k2].from@ == f) || (exists|t2: int|
                        0 <= t2 < t && (#[trigger] cn.to@[t2])@ == x@ && cn.from@ == f),
            decreases cn.to.len() - t,
        {
            if eq_str(cn.to[t].as_str(), x) {
                let ghost r0 = r.deep_view();
                r.push(cn.from.clone());
                proof {
                    let r1 = r.deep_view();
                    assert(r1 =~= r0.push(cn.from@));
                    assert forall|f: Seq<char>| r1.contains(f) <==> (r0.contains(f) || f
                        == cn.from@) by {
                        if r1.contains(f) {
                            let m = choose|m: int| 0 <= m < r1.len() && r1[m] == f;
                            if m < r0.len() {
                                assert(r0[m] == f);
                            }
                        }
                        if r0.contains(f) {
                            let m = choose|m: int| 0 <= m < r0.len() && r0[m] == f;
                            assert(r1[m] == f);
                        }
                        if f == cn.from@ {
                            assert(r1[r0.len() as int] == f);
                        }
                    }
                }
            }
            t = t + 1;
        }
        proof {
            assert forall|f: Seq<char>|
                r.deep_view().contains(f) <==> exists|k2: int, t2: int|
                    0 <= k2 < k + 1 && 0 <= t2 < config.connections@[k2].to@.len()
                        && (#[trigger] config.connections@[k2].to@[t2])@ == x@
                        && config.connections@[k2].from@ == f by {
                if exists|t2: int| 0 <= t2 < t && (#[trigger] cn.to@[t2])@ == x@ && cn.from@ == f {
                    let t2 = choose|t2: int|
                        0 <= t2 < t && (#[trigger] cn.to@[t2])@ == x@ && cn.from@ == f;
                    assert(config.connections@[k as int].to@[t2] == cn.to@[t2]);
                }
                if exists|k2: int, t2: int|
                    0 <= k2 < k + 1 && 0 <= t2 < config.connections@[k2].to@.len()
                        && (#[trigger] config.connections@[k2].to@[t2])@ == x@
                        && config.connections@[k2].from@ == f {
                    let (k2, t2) = choose|k2: int, t2: int|
                        0 <= k2 < k + 1 && 0 <= t2 < config.connections@[k2].to@.len()
                            && (#[trigger] config.connections@[k2].to@[t2])@ == x@
                            && config.connections@[k2].from@ == f;
                    if k2 == k {
                        assert(cn.to@[t2] == config.connections@[k2].to@[t2]);
                    }
                }
            }
        }
        k = k + 1;
    }
    r
}

proof fn lemma_stack_bound(c: OrchestrationConfig, stack: Seq<Seq<char>>)
    requires
        stack.no_duplicates(),
        forall|i: int| 0 <= i < stack.len() ==> has_node(c, #[trigger] stack[i]),
    ensures
        stack.len() <= c.nodes@.len(),
{
    let ids = node_ids(c);
    stack.unique_seq_to_set();
    ids.lemma_cardinality_of_set();
    assert(stack.to_set().subset_of(ids.to_set())) by {
        assert forall|x: Seq<char>| stack.to_set().contains(x) implies ids.to_set().contains(x) by {
            let i = choose|i: int| 0 <= i < stack.len() && stack[i] == x;
            assert(has_node(c, stack[i]));
            let m = choose|m: int| 0 <= m < c.nodes@.len() && (#[trigger] c.nodes@[m]).id@ == x;
            assert(ids[m] == x);
        }
    }
    vstd::set_lib::lemma_len_subset(stack.to_set(), ids.to_set());
}

/// Adds to `output` every agent node reachable from `dependency` through relay nodes not on
/// `stack`, keeping `output` free of repetition.
fn append_executable_dependency(
    dependency: &str,
    config: &OrchestrationConfig,
    output: &mut Vec<String>,
    stack: &mut Vec<String>,
)
    requires
        distinct_names(node_ids(*config)),
        old(output).deep_view().no_duplicates(),
        old(stack).deep_view().no_duplicates(),
        forall|i: int|
            0 <= i < old(stack).deep_view().len() ==> is_relay_node(
                *config,
                #[trigger] old(stack).deep_view()[i],
            ),
    ensures
        final(stack).deep_view() == old(stack).deep_view(),
        final(output).deep_view().no_duplicates(),
        forall|t: Seq<char>|
            final(output).deep_view().contains(t) <==> (old(output).deep_view().contains(t)
                || reaches_agent(*config, dependency@, t, old(stack).deep_view())),
    decreases config.nodes@.len() - old(stack)@.len(),
{
    let ghost c = *config;
    let ghost st = stack.deep_view();
    let ghost out0 = output.deep_view();
    let found = find_node(config, dependency);
    if found.is_none() {
        proof {
            assert forall|t: Seq<char>| !reaches_agent(c, dependency@, t, st) by {
                if reaches_agent(c, dependency@, t, st) {
                    let p = choose|p: Seq<Seq<char>>|
                        #![trigger relay_path(c, p), p[0], p.last()]
                        relay_path(c, p) && p[0] == dependency@ && p.last() == t && forall|i: int|
                            0 <= i < p.len() - 1 ==> !st.contains(#[trigger] p[i]);
                    if p.len() == 1 {
                        assert(is_agent_node(c, p.last()));
                        let m = choose|m: int|
                            0 <= m < c.nodes@.len() && (#[trigger] c.nodes@[m]).id@ == p.last()
                                && c.nodes@[m].kind == NodeKind::Agent;
                    } else {
                        assert(is_relay_node(c, p[0]));
                    }
                }
            }
        }
        return;
    }
    let idx = found.unwrap();
    let node = &config.nodes[idx];
    if node.kind == NodeKind::Agent {
        if !contains_string(output, dependency) {
            output.push(owned(dependency));
        }
        proof {
            let out1 = output.deep_view();
            assert forall|t: Seq<char>| reaches_agent(c, dependency@, t, st) <==> t == dependency@ by {
                if reaches_agent(c, dependency@, t, st) {
                    let p = choose|p: Seq<Seq<char>>|
                        #![trigger relay_path(c, p), p[0], p.last()]
                        relay_path(c, p) && p[0] == dependency@ && p.last() == t && forall|i: int|
                            0 <= i < p.len() - 1 ==> !st.contains(#[trigger] p[i]);
                    if p.len() > 1 {
                        assert(is_relay_node(c, p[0]));
                    }
                }
                if t == dependency@ {
                    let p = seq![dependency@];
                    assert(p.no_duplicates());
                    assert(relay_path(c, p));
                }
            }
            if out0.contains(dependency@) {
                assert(out1 == out0);
            } else {
                assert(out1 =~= out0.push(dependency@));
                assert forall|t: Seq<char>| out1.contains(t) <==> (out0.contains(t) || t
                    == dependency@) by {
                    if out1.contains(t) {
                        let m = choose|m: int| 0 <= m < out1.len() && out1[m] == t;
                        if m < out0.len() {
                            assert(out0[m] == t);
                        }
                    }
                    if out0.contains(t) {
                        let m = choose|m: int| 0 <= m < out0.len() && out0[m] == t;
                        assert(out1[m] == t);
                    }
                    if t == dependency@ {
                        assert(out1[out0.len() as int] == t);
                    }
                }
            }
        }
        return;
    }
    if contains_string(stack, dependency) {
        proof {
            assert forall|t: Seq<char>| !reaches_agent(c, dependency@, t, st) by {
                if reaches_agent(c, dependency@, t, st) {
                    let p = choose|p: Seq<Seq<char>>|
                        #![trigger relay_path(c, p), p[0], p.last()]
                        relay_path(c, p) && p[0] == dependency@ && p.last() == t && forall|i: int|
                            0 <= i < p.len() - 1 ==> !st.contains(#[trigger] p[i]);
                    if p.len() == 1 {
                        assert(is_agent_node(c, p.last()));
                        let m = choose|m: int|
                            0 <= m < c.nodes@.len() && (#[trigger] c.nodes@[m]).id@ == p.last()
                                && c.nodes@[m].kind == NodeKind::Agent;
                        assert(node_ids(c)[m] == node_ids(c)[idx as int]);
                    } else {
                        assert(!st.contains(p[0]));
                    }
                }
            }
        }
        return;
    }
    // `dependency` is a relay node not yet on the stack.
    proof {
        assert(is_relay_node(c, dependency@)) by {
            if is_agent_node(c, dependency@) {
                let m = choose|m: int|
                    0 <= m < c.nodes@.len() && (#[trigger] c.nodes@[m]).id@ == dependency@
                        && c.nodes@[m].kind == NodeKind::Agent;
                assert(node_ids(c)[m] == node_ids(c)[idx as int]);
            }
        }
        let st1 = st.push(dependency@);
        assert forall|i: int| 0 <= i < st1.len() implies has_node(c, #[trigger] st1[i]) by {
            if i < st.len() {
                assert(is_relay_node(c, st[i]));
            }
        }
        assert(st1.no_duplicates());
        lemma_stack_bound(c, st1);
    }
    let mut ups = node.depends_on.clone();
    let from_connections = connection_sources(config, dependency);
    let mut m: usize = 0;
    while m < from_connections.len()
        invariant
            m <= from_connections@.len(),
            forall|u: Seq<char>|
                ups.deep_view().contains(u) <==> (node.depends_on.deep_view().contains(u)
                    || exists|m2: int|
                    0 <= m2 < m && (#[trigger] from_connections.deep_view()[m2]) == u),
        decreases from_connections.len() - m,
    {
        let ghost u0 = ups.deep_view();
        ups.push(from_connections[m].clone());
        proof {
            let u1 = ups.deep_view();
            assert(u1 =~= u0.push(from_connections.deep_view()[m as int]));
            assert forall|u: Seq<char>| u1.contains(u) <==> (u0.contains(u) || u
                == from_connections.deep_view()[m as int]) by {
                if u1.contains(u) {
                    let q = choose|q: int| 0 <= q < u1.len() && u1[q] == u;
                    if q < u0.len() {
                        assert(u0[q] == u);
                    }
                }
                if u0.contains(u) {
                    let q = choose|q: int| 0 <= q < u0.len() && u0[q] == u;
                    assert(u1[q] == u);
                }
                if u == from_connections.deep_view()[m as int] {
                    assert(u1[u0.len() as int] == u);
                }
            }
        }
        m = m + 1;
    }
    proof {
        // the list of upstream nodes is exactly the spec's upstream relation
        assert forall|u: Seq<char>| ups.deep_view().contains(u) <==> upstream(c, dependency@, u) by {
            if node.depends_on.deep_view().contains(u) {
                let j = choose|j: int|
                    0 <= j < node.depends_on.deep_view().len() && node.depends_on.deep_view()[j] == u;
                assert(c.nodes@[idx as int].depends_on@[j]@ == u);
            }
            if (exists|i: int, j: int|
                0 <= i < c.nodes@.len() && 0 <= j < c.nodes@[i].depends_on@.len() && c.nodes@[i].id@
                    == dependency@ && (#[trigger] c.nodes@[i].depends_on@[j])@ == u) {
                let (i, j) = choose|i: int, j: int|
                    0 <= i < c.nodes@.len() && 0 <= j < c.nodes@[i].depends_on@.len()
                        && c.nodes@[i].id@ == dependency@ && (#[trigger] c.nodes@[i].depends_on@[j])@
                        == u;
                assert(node_ids(c)[i] == node_ids(c)[idx as int]);
                assert(node.depends_on.deep_view()[j] == u);
            }
            if is_conn_dep(c, dependency@, u) {
                assert(from_connections.deep_view().contains(u));
                let q = choose|q: int|
                    0 <= q < from_connections.deep_view().len() && from_connections.deep_view()[q] == u;
                assert(from_connections.deep_view()[q] == u);
            }
            if exists|m2: int|
                0 <= m2 < m && (#[trigger] from_connections.deep_view()[m2]) == u {
                let m2 = choose|m2: int|
                    0 <= m2 < m && (#[trigger] from_connections.deep_view()[m2]) == u;
                assert(from_connections.deep_view().contains(u));
            }
        }
    }
    stack.push(owned(dependency));
    let ghost st1 = stack.deep_view();
    assert(st1 =~= st.push(dependency@));
    let mut k: usize = 0;
    while k < ups.len()
        invariant
            distinct_names(node_ids(*config)),
            c == *config,
            st1 == stack.deep_view(),
            st1 == st.push(dependency@),
            st1.no_duplicates(),
            forall|i: int| 0 <= i < st1.len() ==> is_relay_node(c, #[trigger] st1[i]),
            st1.len() <= config.nodes@.len(),
            st1.len() == old(stack)@.len() + 1,
            k <= ups@.len(),
            output.deep_view().no_duplicates(),
            forall|t: Seq<char>|
                #[trigger] output.deep_view().contains(t) <==> (out0.contains(t) || reached_by(
                    c,
                    ups.deep_view(),
                    k as int,
                    t,
                    st1,
                )),
        decreases ups.len() - k,
    {
        let ghost o0 = output.deep_view();
        append_executable_dependency(ups[k].as_str(), config, output, stack);
        proof {
            assert(ups.deep_view()[k as int] == ups@[k as int]@);
            assert forall|t: Seq<char>|
                #[trigger] output.deep_view().contains(t) <==> (out0.contains(t) || reached_by(
                    c,
                    ups.deep_view(),
                    k + 1,
                    t,
                    st1,
                )) by {
                assert(o0.contains(t) <==> (out0.contains(t) || reached_by(
                    c,
                    ups.deep_view(),
                    k as int,
                    t,
                    st1,
                )));
                if reached_by(c, ups.deep_view(), k + 1, t, st1) {
                    let k2 = choose|k2: int|
                        0 <= k2 < k + 1 && reaches_agent(c, #[trigger] ups.deep_view()[k2], t, st1);
                    if k2 < k {
                        assert(reached_by(c, ups.deep_view(), k as int, t, st1));
                    }
                }
                if reached_by(c, ups.deep_view(), k as int, t, st1) {
                    let k2 = choose|k2: int|
                        0 <= k2 < k && reaches_agent(c, #[trigger] ups.deep_view()[k2], t, st1);
                    assert(reached_by(c, ups.deep_view(), k + 1, t, st1));
                }
                if reaches_agent(c, ups.deep_view()[k as int], t, st1) {
                    assert(reached_by(c, ups.deep_view(), k + 1, t, st1));
                }
            }
        }
        k = k + 1;
    }
    let ghost sv = stack@;
    stack.pop();
    proof {
        assert(stack@ =~= sv.drop_last());
        assert forall|i: int| 0 <= i < st.len() implies stack.deep_view()[i] == st[i] by {
            assert(stack.deep_view()[i] == sv[i]@);
            assert(st1[i] == sv[i]@);
        }
        assert(stack.deep_view() =~= st);
        assert forall|t: Seq<char>|
            reaches_agent(c, dependency@, t, st) <==> exists|k2: int|
                0 <= k2 < ups.deep_view().len() && reaches_agent(
                    c,
                    #[trigger] ups.deep_view()[k2],
                    t,
                    st1,
                ) by {
            if reaches_agent(c, dependency@, t, st) {
                let p = choose|p: Seq<Seq<char>>|
                    #![trigger relay_path(c, p), p[0], p.last()]
                    relay_path(c, p) && p[0] == dependency@ && p.last() == t && forall|i: int|
                        0 <= i < p.len() - 1 ==> !st.contains(#[trigger] p[i]);
                if p.len() == 1 {
                    let mm = choose|mm: int|
                        0 <= mm < c.nodes@.len() && (#[trigger] c.nodes@[mm]).id@ == p.last()
                            && c.nodes@[mm].kind == NodeKind::Agent;
                    assert(node_ids(c)[mm] == node_ids(c)[idx as int]);
                }
                assert(is_relay_node(c, p[0]) && upstream(c, p[0], p[1]));
                let q = p.drop_first();
                assert(ups.deep_view().contains(q[0]));
                let k2 = choose|k2: int| 0 <= k2 < ups.deep_view().len() && ups.deep_view()[k2] == q[0];
                assert(relay_path(c, q)) by {
                    assert forall|i: int| 0 <= i < q.len() - 1 implies is_relay_node(c, #[trigger] q[i])
                        && upstream(c, q[i], q[i + 1]) by {
                        assert(is_relay_node(c, p[i + 1]) && upstream(c, p[i + 1], p[i + 2]));
                    }
                    assert forall|a: int, b: int|
                        0 <= a < q.len() && 0 <= b < q.len() && a != b implies q[a] != q[b] by {
                        assert(p[a + 1] != p[b + 1]);
                    }
                }
                assert forall|i: int| 0 <= i < q.len() - 1 implies !st1.contains(#[trigger] q[i]) by {
                    assert(!st.contains(p[i + 1]));
                    if st1.contains(q[i]) {
                        let w = choose|w: int| 0 <= w < st1.len() && st1[w] == q[i];
                        if w < st.len() {
                            assert(st.contains(q[i]));
                        } else {
                            assert(p[i + 1] == p[0]);
                        }
                    }
                }
                assert(reaches_agent(c, ups.deep_view()[k2], t, st1));
            }
            if exists|k2: int|
                0 <= k2 < ups.deep_view().len() && reaches_agent(
                    c,
                    #[trigger] ups.deep_view()[k2],
                    t,
                    st1,
                ) {
                let k2 = choose|k2: int|
                    0 <= k2 < ups.deep_view().len() && reaches_agent(
                        c,
                        #[trigger] ups.deep_view()[k2],
                        t,
                        st1,
                    );
                let u = ups.deep_view()[k2];
                let q = choose|q: Seq<Seq<char>>|
                    #![trigger relay_path(c, q), q[0], q.last()]
                    relay_path(c, q) && q[0] == u && q.last() == t && forall|i: int|
                        0 <= i < q.len() - 1 ==> !st1.contains(#[trigger] q[i]);
                let p = seq![dependency@] + q;
                assert(ups.deep_view().contains(u));
                assert(upstream(c, dependency@, u));
                assert(st1[st.len() as int] == dependency@);
                assert forall|i: int| 0 <= i < q.len() - 1 implies q[i] != dependency@ by {
                    assert(!st1.contains(q[i]));
                }
                assert(q.last() != dependency@) by {
                    if q.last() == dependency@ {
                        let mm = choose|mm: int|
                            0 <= mm < c.nodes@.len() && (#[trigger] c.nodes@[mm]).id@ == q.last()
                                && c.nodes@[mm].kind == NodeKind::Agent;
                        assert(node_ids(c)[mm] == node_ids(c)[idx as int]);
                    }
                }
                assert(relay_path(c, p)) by {
                    assert forall|a: int, b: int|
                        0 <= a < p.len() && 0 <= b < p.len() && a != b implies p[a] != p[b] by {
                        if a == 0 && b > 0 {
                            assert(p[b] == q[b - 1]);
                            if b - 1 < q.len() - 1 {
                            }
                        } else if b == 0 && a > 0 {
                            assert(p[a] == q[a - 1]);
                        } else if a > 0 && b > 0 {
                            assert(q[a - 1] != q[b - 1]);
                        }
                    }
                    assert(p.last() == q.last());
                    assert forall|i: int| 0 <= i < p.len() - 1 implies is_relay_node(c, #[trigger] p[i])
                        && upstream(c, p[i], p[i + 1]) by {
                        if i > 0 {
                            assert(p[i] == q[i - 1]);
                            assert(p[i + 1] == q[i]);
                            assert(is_relay_node(c, q[i - 1]) && upstream(c, q[i - 1], q[i]));
                        } else {
                            assert(p[1] == q[0]);
                        }
                    }
                }
                assert forall|i: int| 0 <= i < p.len() - 1 implies !st.contains(#[trigger] p[i]) by {
                    if i > 0 {
                        assert(p[i] == q[i - 1]);
                        assert(!st1.contains(q[i - 1]));
                        if st.contains(q[i - 1]) {
                            let w = choose|w: int| 0 <= w < st.len() && st[w] == q[i - 1];
                            assert(st1[w] == q[i - 1]);
                        }
                    }
                }
                assert(p[0] == dependency@);
                assert(reaches_agent(c, dependency@, t, st));
            }
        }
    }
}


/// The executable (agent) nodes reached from `dependencies`, each once.
pub fn expand_executable_dependencies(dependencies: &Vec<String>, config: &OrchestrationConfig) -> (r:
    Vec<String>)
    requires
        distinct_names(node_ids(*config)),
    ensures
        r.deep_view().no_duplicates(),
        forall|t: Seq<char>|
            #[trigger] r.deep_view().contains(t) <==> reached_by(
                *config,
                dependencies.deep_view(),
                dependencies@.len() as int,
                t,
                Seq::empty(),
            ),
{
    let ghost c = *config;
    let mut expanded: Vec<String> = Vec::new();
    let mut k: usize = 0;
    while k < dependencies.len()
        invariant
            c == *config,
            distinct_names(node_ids(*config)),
            k <= dependencies@.len(),
            expanded.deep_view().no_duplicates(),
            forall|t: Seq<char>|
                #[trigger] expanded.deep_view().contains(t) <==> reached_by(
                    c,
                    dependencies.deep_view(),
                    k as int,
                    t,
                    Seq::empty(),
                ),
        decreases dependencies.len() - k,
    {
        let ghost o0 = expanded.deep_view();
        let mut stack: Vec<String> = Vec::new();
        assert(stack.deep_view() =~= Seq::<Seq<char>>::empty());
        append_executable_dependency(dependencies[k].as_str(), config, &mut expanded, &mut stack);
        proof {
            let dv = dependencies.deep_view();
            assert(dv[k as int] == dependencies@[k as int]@);
            assert forall|t: Seq<char>|
                #[trigger] expanded.deep_view().contains(t) <==> reached_by(
                    c,
                    dv,
                    k + 1,
                    t,
                    Seq::empty(),
                ) by {
                assert(o0.contains(t) <==> reached_by(c, dv, k as int, t, Seq::empty()));
                if reached_by(c, dv, k + 1, t, Seq::empty()) {
                    let k2 = choose|k2: int|
                        0 <= k2 < k + 1 && reaches_agent(c, #[trigger] dv[k2], t, Seq::empty());
                    if k2 < k {
                        assert(reached_by(c, dv, k as int, t, Seq::empty()));
                    }
                }
                if reached_by(c, dv, k as int, t, Seq::empty()) {
                    let k2 = choose|k2: int|
                        0 <= k2 < k && reaches_agent(c, #[trigger] dv[k2], t, Seq::empty());
                    assert(reached_by(c, dv, k + 1, t, Seq::empty()));
                }
                if reaches_agent(c, dv[k as int], t, Seq::empty()) {
                    assert(reached_by(c, dv, k + 1, t, Seq::empty()));
                }
            }
        }
        k = k + 1;
    }
    expanded
}

/// `acc` extended by the entries of `rest` that it does not hold yet, in order.
pub open spec fn merge_spec(acc: Seq<Seq<char>>, rest: Seq<Seq<char>>) -> Seq<Seq<char>>
    decreases rest.len(),
{
    if rest.len() == 0 {
        acc
    } else {
        merge_spec(
            if acc.contains(rest[0]) {
                acc
            } else {
                acc.push(rest[0])
            },
            rest.drop_first(),
        )
    }
}

proof fn lemma_merge_contains(acc: Seq<Seq<char>>, rest: Seq<Seq<char>>)
    ensures
        forall|x: Seq<char>| #[trigger] merge_spec(acc, rest).contains(x) <==> (acc.contains(x)
            || rest.contains(x)),
    decreases rest.len(),
{
    if rest.len() > 0 {
        let acc1 = if acc.contains(rest[0]) {
            acc
        } else {
            acc.push(rest[0])
        };
        let df = rest.drop_first();
        lemma_merge_contains(acc1, df);
        assert(merge_spec(acc, rest) == merge_spec(acc1, df));
        assert forall|x: Seq<char>| acc1.contains(x) <==> (acc.contains(x) || x == rest[0]) by {
            if acc1.contains(x) && !acc.contains(x) {
                let m = choose|m: int| 0 <= m < acc1.len() && acc1[m] == x;
                if acc1 != acc {
                    if m < acc.len() {
                        assert(acc[m] == x);
                    }
                }
            }
            if acc.contains(x) && acc1 != acc {
                let m = choose|m: int| 0 <= m < acc.len() && acc[m] == x;
                assert(acc1[m] == x);
            }
            if x == rest[0] && acc1 != acc {
                assert(acc1[acc.len() as int] == x);
            }
        }
        assert forall|x: Seq<char>| rest.contains(x) <==> (x == rest[0] || df.contains(x)) by {
            if rest.contains(x) {
                let m = choose|m: int| 0 <= m < rest.len() && rest[m] == x;
                if m > 0 {
                    assert(df[m - 1] == x);
                }
            }
            if df.contains(x) {
                let m = choose|m: int| 0 <= m < df.len() && df[m] == x;
                assert(rest[m + 1] == x);
            }
            if x == rest[0] {
                assert(rest.contains(x));
            }
        }
    }
}

/// The declared dependencies followed by the connection sources that they do not already hold.
pub fn merge_dependencies(explicit: Vec<String>, from_connections: Vec<String>) -> (r: Vec<String>)
    ensures
        r.deep_view() == merge_spec(explicit.deep_view(), from_connections.deep_view()),
{
    let mut out = explicit;
    let ghost fv = from_connections.deep_view();
    let mut k: usize = 0;
    assert(fv.subrange(0, fv.len() as int) =~= fv);
    while k < from_connections.len()
        invariant
            fv == from_connections.deep_view(),
            k <= fv.len(),
            merge_spec(out.deep_view(), fv.subrange(k as int, fv.len() as int)) == merge_spec(
                explicit.deep_view(),
                fv,
            ),
        decreases from_connections.len() - k,
    {
        let ghost rest = fv.subrange(k as int, fv.len() as int);
        assert(rest.drop_first() =~= fv.subrange(k + 1, fv.len() as int));
        assert(rest[0] == from_connections@[k as int]@);
        if !contains_string(&out, from_connections[k].as_str()) {
            let ghost o0 = out.deep_view();
            out.push(from_connections[k].clone());
            assert(out.deep_view() =~= o0.push(rest[0]));
        }
        k = k + 1;
    }
    assert(fv.subrange(k as int, fv.len() as int) =~= Seq::<Seq<char>>::empty());
    out
}

/// Contract names are trimmed and written with underscores.
pub open spec fn normalize_contract_spec(contract: Seq<char>) -> Seq<char> {
    replace_char_spec(spec_trim(contract), '-', '_')
}

pub fn normalize_contract(contract: &str) -> (r: String)
    ensures
        r@ == normalize_contract_spec(contract@),
{
    let t = trim(contract);
    replace_char(t.as_str(), '-', '_')
}

pub open spec fn default_copilot_args_spec() -> Seq<Seq<char>> {
    seq!["--silent"@, "--no-ask-user"@, "-p"@, "{prompt}"@]
}

/// The built-in `copilot` backend.
pub fn default_copilot_backend() -> (b: BackendProfile)
    ensures
        b.id@ == "copilot"@,
        b.program@ == "copilot"@,
        b.args.deep_view() == default_copilot_args_spec(),
{
    let mut args: Vec<String> = Vec::new();
    args.push(owned("--silent"));
    args.push(owned("--no-ask-user"));
    args.push(owned("-p"));
    args.push(owned("{prompt}"));
    assert(args.deep_view() =~= default_copilot_args_spec());
    BackendProfile { id: owned("copilot"), program: owned("copilot"), args }
}

// ---------------------------------------------------------------- agent specifications

pub open spec fn opt_view(o: Option<String>) -> Option<Seq<char>> {
    match o {
        Some(s) => Some(s@),
        None => None,
    }
}

pub open spec fn defaults_backend(c: OrchestrationConfig) -> Option<Seq<char>> {
    match c.defaults {
        Some(d) => opt_view(d.backend),
        None => None,
    }
}

pub open spec fn defaults_model(c: OrchestrationConfig) -> Option<Seq<char>> {
    match c.defaults {
        Some(d) => opt_view(d.model),
        None => None,
    }
}

pub open spec fn defaults_timeout(c: OrchestrationConfig) -> Option<u64> {
    match c.defaults {
        Some(d) => d.timeout_secs,
        None => None,
    }
}

pub open spec fn defaults_retries(c: OrchestrationConfig) -> Option<u32> {
    match c.defaults {
        Some(d) => d.retries,
        None => None,
    }
}

pub open spec fn defaults_retry_delay(c: OrchestrationConfig) -> Option<u64> {
    match c.defaults {
        Some(d) => d.retry_delay_ms,
        None => None,
    }
}

pub open spec fn or_else<T>(a: Option<T>, b: Option<T>) -> Option<T> {
    if a is Some {
        a
    } else {
        b
    }
}

pub open spec fn unwrap_or<T>(a: Option<T>, d: T) -> T {
    match a {
        Some(x) => x,
        None => d,
    }
}

/// The backend a node runs on: its own, else the configured default, else `copilot`.
pub open spec fn backend_id_for(c: OrchestrationConfig, n: OrchestrationNode) -> Seq<char> {
    unwrap_or(or_else(opt_view(n.backend), defaults_backend(c)), "copilot"@)
}

pub open spec fn configured_backend(c: OrchestrationConfig, id: Seq<char>) -> bool {
    exists|k: int| 0 <= k < c.backends@.len() && (#[trigger] c.backends@[k]).id@ == id
}

pub open spec fn configured_index(c: OrchestrationConfig, id: Seq<char>) -> int {
    choose|k: int| 0 <= k < c.backends@.len() && (#[trigger] c.backends@[k]).id@ == id
}

pub open spec fn backend_program(c: OrchestrationConfig, id: Seq<char>) -> Seq<char> {
    if configured_backend(c, id) {
        c.backends@[configured_index(c, id)].program@
    } else {
        "copilot"@
    }
}

pub open spec fn backend_args(c: OrchestrationConfig, id: Seq<char>) -> Seq<Seq<char>> {
    if configured_backend(c, id) {
        c.backends@[configured_index(c, id)].args.deep_view()
    } else {
        default_copilot_args_spec()
    }
}

pub open spec fn model_for(c: OrchestrationConfig, n: OrchestrationNode) -> Seq<char> {
    unwrap_or(or_else(opt_view(n.model), defaults_model(c)), "default"@)
}

/// The node's own arguments, else the backend's with `{model}` filled in.
pub open spec fn args_for(c: OrchestrationConfig, n: OrchestrationNode) -> Seq<Seq<char>> {
    if n.args@.len() > 0 {
        n.args.deep_view()
    } else {
        backend_args(c, backend_id_for(c, n)).map_values(
            |a: Seq<char>| replace_spec(a, "{model}"@, model_for(c, n)),
        )
    }
}

/// `d` is where the dependencies of node `n` start: a declared dependency or a connection source.
pub open spec fn start_dependency(c: OrchestrationConfig, n: OrchestrationNode, d: Seq<char>) -> bool {
    n.depends_on.deep_view().contains(d) || is_conn_dep(c, n.id@, d)
}

/// `s` is what node `n` of `c` becomes.
pub open spec fn agent_spec_of(c: OrchestrationConfig, n: OrchestrationNode, s: AgentSpec) -> bool {
    &&& s.id@ == n.id@
    &&& s.kind == n.kind
    &&& s.output_contract@ == normalize_contract_spec(n.output_contract@)
    &&& opt_view(s.artifact_dir) == opt_view(n.artifact_dir)
    &&& opt_view(s.phase_label) == opt_view(n.phase_label)
    &&& opt_view(s.instruction) == opt_view(n.instruction)
    &&& s.command@ == unwrap_or(opt_view(n.command), backend_program(c, backend_id_for(c, n)))
    &&& s.args.deep_view() == args_for(c, n)
    &&& s.input_sources.deep_view() == n.inputs@.map_values(|i: InputSelector| i.source@)
    &&& s.depends_on.deep_view().no_duplicates()
    &&& forall|t: Seq<char>|
        #[trigger] s.depends_on.deep_view().contains(t) <==> exists|d: Seq<char>|
            start_dependency(c, n, d) && reaches_agent(c, d, t, Seq::empty())
    &&& s.resources.deep_view() == n.resources.deep_view()
    &&& s.timeout_secs == or_else(n.timeout_secs, defaults_timeout(c))
    &&& s.retries == unwrap_or(or_else(n.retries, defaults_retries(c)), 0u32)
    &&& s.retry_delay_ms == or_else(n.retry_delay_ms, defaults_retry_delay(c))
}

pub open spec fn is_agent_kind(n: OrchestrationNode) -> bool {
    n.kind == NodeKind::Agent
}

pub open spec fn agent_pred() -> spec_fn(OrchestrationNode) -> bool {
    |n: OrchestrationNode| is_agent_kind(n)
}

pub open spec fn agent_nodes(c: OrchestrationConfig) -> Seq<OrchestrationNode> {
    c.nodes@.filter(agent_pred())
}

/// An agent node whose backend is neither configured nor the built-in one.
pub open spec fn unknown_backend_problem(c: OrchestrationConfig, i: int) -> Option<Seq<char>> {
    let n = c.nodes@[i];
    let b = backend_id_for(c, n);
    if n.kind == NodeKind::Agent && !known_backend(c, b) {
        Some("node `"@ + n.id@ + "` references unknown backend `"@ + b + "`"@)
    } else {
        None
    }
}

pub open spec fn unknown_backend_problems(c: OrchestrationConfig) -> spec_fn(int) -> Option<
    Seq<char>,
> {
    |i: int| unknown_backend_problem(c, i)
}

proof fn lemma_backends_ok_distinct(c: OrchestrationConfig)
    requires
        backends_check(c.backends@) is None,
    ensures
        forall|a: int, b: int|
            0 <= a < c.backends@.len() && 0 <= b < c.backends@.len() && a != b ==> (
            #[trigger] c.backends@[a]).id@ != (#[trigger] c.backends@[b]).id@,
{
    lemma_first_problem_none(backend_problems(c.backends@), 0, c.backends@.len() as int);
    assert forall|a: int, b: int|
        0 <= a < c.backends@.len() && 0 <= b < c.backends@.len() && a != b implies (
        #[trigger] c.backends@[a]).id@ != (#[trigger] c.backends@[b]).id@ by {
        let hi = if a < b {
            b
        } else {
            a
        };
        assert(backend_problems(c.backends@)(hi) is None);
    }
}

fn find_backend(config: &OrchestrationConfig, id: &str) -> (r: Option<usize>)
    ensures
        r is None <==> !configured_backend(*config, id@),
        r matches Some(k) ==> k < config.backends@.len() && config.backends@[k as int].id@ == id@,
{
    let mut k: usize = 0;
    while k < config.backends.len()
        invariant
            k <= config.backends@.len(),
            forall|m: int| 0 <= m < k ==> (#[trigger] config.backends@[m]).id@ != id@,
        decreases config.backends.len() - k,
    {
        if eq_str(config.backends[k].id.as_str(), id) {
            return Some(k);
        }
        k = k + 1;
    }
    None
}

pub(crate) fn clone_strings(v: &Vec<String>) -> (r: Vec<String>)
    ensures
        r.deep_view() == v.deep_view(),
{
    let mut r: Vec<String> = Vec::new();
    let mut i: usize = 0;
    while i < v.len()
        invariant
            i <= v@.len(),
            r.deep_view() == v.deep_view().subrange(0, i as int),
        decreases v.len() - i,
    {
        let ghost r0 = r.deep_view();
        r.push(v[i].clone());
        assert(r.deep_view() =~= r0.push(v@[i as int]@));
        assert(v.deep_view().subrange(0, i + 1) =~= v.deep_view().subrange(0, i as int).push(
            v@[i as int]@,
        ));
        i = i + 1;
    }
    assert(v.deep_view().subrange(0, i as int) =~= v.deep_view());
    r
}

pub(crate) fn clone_opt(o: &Option<String>) -> (r: Option<String>)
    ensures
        opt_view(r) == opt_view(*o),
{
    match o {
        Some(s) => Some(s.clone()),
        None => None,
    }
}

/// The agent specification of node `i`, or the unknown-backend error.
fn agent_spec_for_node(config: &OrchestrationConfig, i: usize) -> (r: Result<AgentSpec, AppError>)
    requires
        i < config.nodes@.len(),
        config.nodes@[i as int].kind == NodeKind::Agent,
        distinct_names(node_ids(*config)),
        backends_check(config.backends@) is None,
    ensures
        match unknown_backend_problem(*config, i as int) {
            Some(m) => r matches Err(e) && is_invalid_config(e, m),
            None => r matches Ok(s) && agent_spec_of(*config, config.nodes@[i as int], s),
        },
{
    let ghost c = *config;
    let node = &config.nodes[i];
    proof {
        lemma_backends_ok_distinct(c);
    }
    let default_backend_id: String = match &config.defaults {
        Some(d) => match &d.backend {
            Some(b) => b.clone(),
            None => owned("copilot"),
        },
        None => owned("copilot"),
    };
    let backend_id: String = match &node.backend {
        Some(b) => b.clone(),
        None => default_backend_id,
    };
    assert(backend_id@ == backend_id_for(c, *node));
    let found = find_backend(config, backend_id.as_str());
    let (program, backend_arg_list): (String, Vec<String>) = match found {
        Some(k) => {
            proof {
                let ck = configured_index(c, backend_id@);
                assert(c.backends@[ck].id@ == backend_id@);
                if ck != k {
                    assert(c.backends@[ck].id@ != c.backends@[k as int].id@);
                }
            }
            (config.backends[k].program.clone(), clone_strings(&config.backends[k].args))
        },
        None => {
            if !eq_str(backend_id.as_str(), "copilot") {
                proof {
                    assert(!known_backend(c, backend_id@));
                }
                return Err(
                    AppError::InvalidConfig(
                        join5(
                            "node `",
                            node.id.as_str(),
                            "` references unknown backend `",
                            backend_id.as_str(),
                            "`",
                        ),
                    ),
                );
            }
            let d = default_copilot_backend();
            (d.program, d.args)
        },
    };
    assert(program@ == backend_program(c, backend_id@));
    assert(backend_arg_list.deep_view() == backend_args(c, backend_id@));
    let command: String = match &node.command {
        Some(cmd) => cmd.clone(),
        None => program,
    };
    let model: String = match &node.model {
        Some(m) => m.clone(),
        None => match &config.defaults {
            Some(d) => match &d.model {
                Some(m) => m.clone(),
                None => owned("default"),
            },
            None => owned("default"),
        },
    };
    assert(model@ == model_for(c, *node));
    let args: Vec<String> = if node.args.len() > 0 {
        clone_strings(&node.args)
    } else {
        let mut out: Vec<String> = Vec::new();
        let mut k: usize = 0;
        while k < backend_arg_list.len()
            invariant
                k <= backend_arg_list@.len(),
                out.deep_view() == backend_arg_list.deep_view().subrange(0, k as int).map_values(
                    |a: Seq<char>| replace_spec(a, "{model}"@, model@),
                ),
            decreases backend_arg_list.len() - k,
        {
            proof {
                reveal_strlit("{model}");
            }
            let replaced = replace(backend_arg_list[k].as_str(), "{model}", model.as_str());
            let ghost o0 = out.deep_view();
            out.push(replaced);
            proof {
                let bv = backend_arg_list.deep_view();
                let f = |a: Seq<char>| replace_spec(a, "{model}"@, model@);
                assert(out.deep_view() =~= o0.push(f(bv[k as int])));
                assert(bv.subrange(0, k + 1) =~= bv.subrange(0, k as int).push(bv[k as int]));
                assert(bv.subrange(0, k + 1).map_values(f) =~= bv.subrange(0, k as int).map_values(
                    f,
                ).push(f(bv[k as int])));
            }
            k = k + 1;
        }
        assert(backend_arg_list.deep_view().subrange(0, k as int) =~= backend_arg_list.deep_view());
        out
    };
    assert(args.deep_view() == args_for(c, *node));
    let mut input_sources: Vec<String> = Vec::new();
    let mut k: usize = 0;
    while k < node.inputs.len()
        invariant
            k <= node.inputs@.len(),
            input_sources.deep_view() == node.inputs@.subrange(0, k as int).map_values(
                |x: InputSelector| x.source@,
            ),
        decreases node.inputs.len() - k,
    {
        let ghost i0 = input_sources.deep_view();
        input_sources.push(node.inputs[k].source.clone());
        proof {
            let f = |x: InputSelector| x.source@;
            assert(input_sources.deep_view() =~= i0.push(f(node.inputs@[k as int])));
            assert(node.inputs@.subrange(0, k + 1) =~= node.inputs@.subrange(0, k as int).push(
                node.inputs@[k as int],
            ));
            assert(node.inputs@.subrange(0, k + 1).map_values(f) =~= node.inputs@.subrange(
                0,
                k as int,
            ).map_values(f).push(f(node.inputs@[k as int])));
        }
        k = k + 1;
    }
    assert(node.inputs@.subrange(0, k as int) =~= node.inputs@);
    let explicit = clone_strings(&node.depends_on);
    let from_connections = connection_sources(config, node.id.as_str());
    let merged = merge_dependencies(explicit, from_connections);
    let depends_on = expand_executable_dependencies(&merged, config);
    proof {
        lemma_merge_contains(node.depends_on.deep_view(), from_connections.deep_view());
        assert forall|t: Seq<char>|
            #[trigger] depends_on.deep_view().contains(t) <==> exists|d: Seq<char>|
                start_dependency(c, *node, d) && reaches_agent(c, d, t, Seq::empty()) by {
            let mv = merged.deep_view();
            if depends_on.deep_view().contains(t) {
                assert(reached_by(c, mv, mv.len() as int, t, Seq::empty()));
                let k2 = choose|k2: int|
                    0 <= k2 < mv.len() && reaches_agent(c, #[trigger] mv[k2], t, Seq::empty());
                assert(mv.contains(mv[k2]));
                assert(start_dependency(c, *node, mv[k2]));
            }
            if exists|d: Seq<char>| start_dependency(c, *node, d) && reaches_agent(c, d, t, Seq::empty()) {
                let d = choose|d: Seq<char>|
                    start_dependency(c, *node, d) && reaches_agent(c, d, t, Seq::empty());
                assert(mv.contains(d));
                let k2 = choose|k2: int| 0 <= k2 < mv.len() && mv[k2] == d;
                assert(reached_by(c, mv, mv.len() as int, t, Seq::empty()));
            }
        }
    }
    let retries: u32 = match node.retries {
        Some(r) => r,
        None => match &config.defaults {
            Some(d) => match d.retries {
                Some(r) => r,
                None => 0,
            },
            None => 0,
        },
    };
    let timeout_secs: Option<u64> = match node.timeout_secs {
        Some(t) => Some(t),
        None => match &config.defaults {
            Some(d) => d.timeout_secs,
            None => None,
        },
    };
    let retry_delay_ms: Option<u64> = match node.retry_delay_ms {
        Some(t) => Some(t),
        None => match &config.defaults {
            Some(d) => d.retry_delay_ms,
            None => None,
        },
    };
    Ok(
        AgentSpec {
            id: node.id.clone(),
            kind: node.kind,
            output_contract: normalize_contract(node.output_contract.as_str()),
            artifact_dir: clone_opt(&node.artifact_dir),
            phase_label: clone_opt(&node.phase_label),
            instruction: clone_opt(&node.instruction),
            command,
            args,
            input_sources,
            depends_on,
            resources: clone_strings(&node.resources),
            timeout_secs,
            retries,
            retry_delay_ms,
        },
    )
}


/// `a` carries the settings of `c` and, in order, the specification of each agent node.
pub open spec fn agent_config_of(c: OrchestrationConfig, a: AgentConfig) -> bool {
    &&& opt_view(a.instruction_dir) == opt_view(c.instruction_dir)
    &&& opt_view(a.artifact_dir) == opt_view(c.artifact_dir)
    &&& a.max_parallel_agents == c.max_parallel_agents
    &&& a.min_successful_planners == c.min_successful_planners
    &&& a.min_successful_critics == c.min_successful_critics
    &&& a.max_iterations == c.max_iterations
    &&& a.approval_mode == c.approval_mode
    &&& a.specs@.len() == agent_nodes(c).len()
    &&& forall|i: int| 0 <= i < a.specs@.len() ==> agent_spec_of(c, agent_nodes(c)[i], #[trigger] a.specs@[i])
}

/// What converting a configuration gives: the validation error when it is not valid, else
/// the first agent node's unknown backend, else the agent configuration.
pub open spec fn conversion_of(c: OrchestrationConfig, r: Result<AgentConfig, AppError>) -> bool {
    &&& structure_check(c) is Some ==> reports(
        match r {
            Ok(_) => Ok(()),
            Err(e) => Err(e),
        },
        structure_check(c),
    )
    &&& structure_check(c) is None && !deps_acyclic(c) ==> r is Err && exists|x: Seq<char>|
        on_dep_cycle(c, x) && #[trigger] is_invalid_config(r->Err_0, cycle_message(x))
    &&& config_valid(c) ==> match first_problem(
        unknown_backend_problems(c),
        0,
        c.nodes@.len() as int,
    ) {
        Some(m) => r matches Err(e) && is_invalid_config(e, m),
        None => r matches Ok(a) && agent_config_of(c, a),
    }
}

/// Converting a configuration fails exactly when validating it fails or some agent node is
/// left with a backend that is neither configured nor the built-in one.
pub proof fn lemma_conversion_refused_iff(c: OrchestrationConfig, r: Result<AgentConfig, AppError>)
    requires
        conversion_of(c, r),
    ensures
        r is Err <==> (!config_valid(c) || exists|i: int|
            0 <= i < c.nodes@.len() && (#[trigger] unknown_backend_problem(c, i)) is Some),
{
    let f = unknown_backend_problems(c);
    let n = c.nodes@.len() as int;
    lemma_first_problem_none(f, 0, n);
    if !config_valid(c) {
        if structure_check(c) is Some {
            assert(r is Err);
        }
    } else if first_problem(f, 0, n) is None {
        assert forall|i: int| 0 <= i < n implies (#[trigger] unknown_backend_problem(c, i)) is None by {
            assert(f(i) is None);
        }
    } else {
        let i = choose|i: int| 0 <= i < n && (#[trigger] f(i)) is Some;
        assert(unknown_backend_problem(c, i) is Some);
    }
}

impl OrchestrationConfig {
    /// Validates the configuration and turns each agent node, in order, into an agent
    /// specification; other node kinds only relay dependencies.
    pub fn into_agent_config(self) -> (r: Result<AgentConfig, AppError>)
        ensures
            conversion_of(self, r),
    {
        let v = self.validate();
        if v.is_err() {
            let r: Result<AgentConfig, AppError> = match v {
                Ok(_) => Err(AppError::InvalidConfig(String::new())),
                Err(e) => Err(e),
            };
            return r;
        }
        let ghost c = self;
        proof {
            lemma_nodes_ok_distinct(c);
        }
        let ghost f = unknown_backend_problems(c);
        let mut specs: Vec<AgentSpec> = Vec::new();
        let nn = self.nodes.len();
        let mut i: usize = 0;
        while i < nn
            invariant
                c == self,
                f == unknown_backend_problems(c),
                config_valid(c),
                distinct_names(node_ids(c)),
                nn == c.nodes@.len(),
                i <= nn,
                forall|j: int| 0 <= j < i ==> (#[trigger] f(j)) is None,
                specs@.len() == c.nodes@.take(i as int).filter(agent_pred()).len(),
                forall|j: int|
                    0 <= j < specs@.len() ==> agent_spec_of(
                        c,
                        c.nodes@.take(i as int).filter(agent_pred())[j],
                        #[trigger] specs@[j],
                    ),
            decreases nn - i,
        {
            proof {
                lemma_first_problem_skip(f, 0, i as int, nn as int);
            }
            let ghost pred = agent_pred();
            let ghost before = c.nodes@.take(i as int).filter(pred);
            assert(c.nodes@.take(i + 1).drop_last() =~= c.nodes@.take(i as int));
            assert(c.nodes@.take(i + 1).last() == c.nodes@[i as int]);
            proof {
                reveal(Seq::filter);
            }
            if self.nodes[i].kind == NodeKind::Agent {
                match agent_spec_for_node(&self, i) {
                    Err(e) => {
                        return Err(e);
                    },
                    Ok(spec) => {
                        let ghost s0 = specs@;
                        specs.push(spec);
                        proof {
                            let after = c.nodes@.take(i + 1).filter(pred);
                            assert(after == before.push(c.nodes@[i as int]));
                            assert forall|j: int| 0 <= j < specs@.len() implies agent_spec_of(
                                c,
                                after[j],
                                #[trigger] specs@[j],
                            ) by {
                                if j < s0.len() {
                                    assert(specs@[j] == s0[j]);
                                    assert(after[j] == before[j]);
                                }
                            }
                        }
                    },
                }
            } else {
                proof {
                    assert(c.nodes@.take(i + 1).filter(pred) == before);
                }
            }
            i = i + 1;
        }
        proof {
            assert(c.nodes@.take(nn as int) =~= c.nodes@);
            lemma_first_problem_none(f, 0, nn as int);
        }
        Ok(
            AgentConfig {
                instruction_dir: self.instruction_dir,
                artifact_dir: self.artifact_dir,
                max_parallel_agents: self.max_parallel_agents,
                min_successful_planners: self.min_successful_planners,
                min_successful_critics: self.min_successful_critics,
                max_iterations: self.max_iterations,
                approval_mode: self.approval_mode,
                specs,
            },
        )
    }
}

} // verus!
