//! Where configuration files and agent instructions are read from, and how a configuration
//! file is read; the reading itself is left to the caller.
use vstd::prelude::*;
use crate::agent::AgentSpec;
use crate::config::{AppConfig, DEFAULT_CONFIG_PATH};
use crate::errors::{is_invalid_config, AppError};
use crate::paths::{extension, join, path_extension, path_join};
use crate::settings::exists_each;
use crate::text::{eq_str, owned};

verus! {

/// The files tried, in order, when the default configuration path does not exist.
pub open spec fn default_config_candidates_spec() -> Seq<Seq<char>> {
    seq!["config/orca.default.toml"@, "config/orca.yaml"@, "config/orca.yml"@]
}

pub fn default_config_candidates() -> (r: Vec<String>)
    ensures
        r@.map_values(|s: String| s@) == default_config_candidates_spec(),
{
    let mut r: Vec<String> = Vec::new();
    r.push(owned("config/orca.default.toml"));
    r.push(owned("config/orca.yaml"));
    r.push(owned("config/orca.yml"));
    assert(r@.map_values(|s: String| s@) =~= default_config_candidates_spec());
    r
}

/// The first index below `found.len()` whose flag is set, or `found.len()`.
pub open spec fn first_set(found: Seq<bool>, k: int) -> int
    decreases found.len() - k,
{
    if k < 0 || k >= found.len() {
        found.len() as int
    } else if found[k] {
        k
    } else {
        first_set(found, k + 1)
    }
}

/// The configuration file read for `path`: the path itself when it exists; for the default
/// path that does not exist, the first default candidate that does; else the path as given.
pub open spec fn resolved_config_path(path: Seq<char>, exists: bool, candidates_exist: Seq<bool>) -> Seq<
    char,
> {
    let k = first_set(candidates_exist, 0);
    if exists {
        path
    } else if path == DEFAULT_CONFIG_PATH@ && k < candidates_exist.len() && k < 3 {
        default_config_candidates_spec()[k]
    } else {
        path
    }
}

/// The configuration file read for `path`, given whether it exists and whether each default
/// candidate exists.
pub fn resolve_config_path_given(path: &str, exists: bool, candidates_exist: &Vec<bool>) -> (r: String)
    ensures
        r@ == resolved_config_path(path@, exists, candidates_exist@),
{
    if exists {
        return owned(path);
    }
    if !eq_str(path, DEFAULT_CONFIG_PATH) {
        return owned(path);
    }
    let candidates = default_config_candidates();
    let ghost cs = candidates@.map_values(|s: String| s@);
    assert(cs.len() == 3);
    let mut k: usize = 0;
    while k < candidates_exist.len()
        invariant
            k <= candidates_exist@.len(),
            cs == candidates@.map_values(|s: String| s@),
            cs == default_config_candidates_spec(),
            candidates@.len() == 3,
            !exists,
            path@ == DEFAULT_CONFIG_PATH@,
            first_set(candidates_exist@, 0) == first_set(candidates_exist@, k as int),
        decreases candidates_exist.len() - k,
    {
        if candidates_exist[k] {
            if k < candidates.len() {
                assert(cs[k as int] == candidates@[k as int]@);
                return candidates[k].clone();
            }
            return owned(path);
        }
        k = k + 1;
    }
    owned(path)
}

/// The paths whose existence decides which configuration file is read for `path`: the path
/// itself, then each default candidate.
pub fn config_probe_paths(path: &str) -> (r: Vec<String>)
    ensures
        r@.map_values(|s: String| s@) == seq![path@] + default_config_candidates_spec(),
{
    let mut r: Vec<String> = Vec::new();
    r.push(owned(path));
    let mut candidates = default_config_candidates();
    let ghost head = r@;
    let ghost tail = candidates@;
    r.append(&mut candidates);
    assert(r@ == head + tail);
    assert(r@.map_values(|s: String| s@) =~= seq![path@] + default_config_candidates_spec());
    r
}

/// The configuration file read for `path`. The disk is asked whether each of
/// `config_probe_paths(path)` exists, in order; which default candidate is taken depends on
/// the answers.
pub fn resolve_config_path(path: &str) -> (r: String)
    ensures
        exists|answers: Seq<bool>|
            answers.len() == 4 && r@ == #[trigger] resolved_config_path(
                path@,
                answers[0],
                answers.skip(1),
            ),
{
    let probes = config_probe_paths(path);
    assert(probes@.map_values(|s: String| s@).len() == 4);
    let answers = exists_each(&probes);
    let mut found: Vec<bool> = Vec::new();
    let mut k: usize = 1;
    while k < answers.len()
        invariant
            1 <= k <= answers@.len(),
            answers@.len() == 4,
            found@ == answers@.subrange(1, k as int),
        decreases answers.len() - k,
    {
        found.push(answers[k]);
        proof {
            assert(answers@.subrange(1, k + 1) =~= answers@.subrange(1, k as int).push(
                answers@[k as int],
            ));
        }
        k = k + 1;
    }
    proof {
        assert(answers@.subrange(1, k as int) =~= answers@.skip(1));
    }
    let r = resolve_config_path_given(path, answers[0], &found);
    assert(r@ == resolved_config_path(path@, answers@[0], answers@.skip(1)));
    r
}

/// How a configuration file is written.
#[derive(Clone, Copy, Debug, PartialEq, Eq)]
pub enum ConfigFormat {
    Yaml,
    Toml,
}

/// YAML for the `yaml` and `yml` extensions, TOML otherwise.
pub open spec fn config_format_spec(path: Seq<char>) -> ConfigFormat {
    match path_extension(path) {
        Some(e) => if e == "yaml"@ || e == "yml"@ {
            ConfigFormat::Yaml
        } else {
            ConfigFormat::Toml
        },
        None => ConfigFormat::Toml,
    }
}

pub fn config_format(path: &str) -> (f: ConfigFormat)
    ensures
        f == config_format_spec(path@),
{
    match extension(path) {
        Some(e) => if eq_str(e.as_str(), "yaml") || eq_str(e.as_str(), "yml") {
            ConfigFormat::Yaml
        } else {
            ConfigFormat::Toml
        },
        None => ConfigFormat::Toml,
    }
}

pub open spec fn legacy_agents_message() -> Seq<char> {
    "legacy [agents] config is no longer supported; use [orchestration] with [[orchestration.nodes]]"@
}

/// A configuration read from a file is refused when it still has the legacy `[agents]` table.
pub fn refuse_legacy_agents(config: AppConfig) -> (r: Result<AppConfig, AppError>)
    ensures
        config.agents ==> (r matches Err(e) && is_invalid_config(e, legacy_agents_message())),
        !config.agents ==> r == Ok::<AppConfig, AppError>(config),
{
    if config.agents {
        Err(
            AppError::InvalidConfig(
                owned(
                    "legacy [agents] config is no longer supported; use [orchestration] with [[orchestration.nodes]]",
                ),
            ),
        )
    } else {
        Ok(config)
    }
}

/// A configuration with nothing in it, as used when no configuration file exists.
pub fn empty_config() -> (c: AppConfig)
    ensures
        c.max_concurrency is None,
        c.continue_on_error is None,
        c.orchestration is None,
        !c.agents,
        c.commands@.len() == 0,
{
    AppConfig {
        max_concurrency: None,
        continue_on_error: None,
        orchestration: None,
        agents: false,
        commands: Vec::new(),
    }
}

/// The instructions that ship with the program, by name.
pub open spec fn embedded_instruction_names() -> Seq<Seq<char>> {
    seq![
        "orchestration.md"@,
        "feature_generation.md"@,
        "planning.md"@,
        "critique.md"@,
        "kpi_generation.md"@,
        "kpi_measurement.md"@,
        "test_planning.md"@,
        "test_generation.md"@,
        "parallel_run.md"@,
        "work.md"@,
        "feature_coverage.md"@,
        "feedback.md"@,
        "copilot_cli_helper.md"@,
    ]
}

/// Whether an instruction of that name ships with the program.
pub fn is_embedded_instruction(name: &str) -> (b: bool)
    ensures
        b == embedded_instruction_names().contains(name@),
{
    let names: [&str; 13] = [
        "orchestration.md",
        "feature_generation.md",
        "planning.md",
        "critique.md",
        "kpi_generation.md",
        "kpi_measurement.md",
        "test_planning.md",
        "test_generation.md",
        "parallel_run.md",
        "work.md",
        "feature_coverage.md",
        "feedback.md",
        "copilot_cli_helper.md",
    ];
    let mut k: usize = 0;
    while k < 13
        invariant
            k <= 13,
            forall|m: int| 0 <= m < 13 ==> #[trigger] names@[m]@ == embedded_instruction_names()[m],
            forall|m: int| 0 <= m < k ==> embedded_instruction_names()[m] != name@,
        decreases 13 - k,
    {
        if eq_str(names[k], name) {
            assert(embedded_instruction_names()[k as int] == name@);
            return true;
        }
        k = k + 1;
    }
    false
}

/// Where an agent's instruction is read from.
#[derive(Clone, Debug, PartialEq, Eq)]
pub enum InstructionSource {
    /// A file in one of the instruction directories.
    File(String),
    /// An instruction that ships with the program.
    Embedded(String),
}

/// The instruction name an agent must set.
pub fn instruction_name(spec: &AgentSpec) -> (r: Result<String, AppError>)
    ensures
        match spec.instruction {
            Some(n) => r == Ok::<String, AppError>(n),
            None => r matches Err(e) && is_invalid_config(
                e,
                "agent node `"@ + spec.id@ + "` must set instruction"@,
            ),
        },
{
    match &spec.instruction {
        Some(n) => Ok(n.clone()),
        None => Err(
            AppError::InvalidConfig(
                crate::config::join3("agent node `", spec.id.as_str(), "` must set instruction"),
            ),
        ),
    }
}

/// The instruction file looked for in each directory, in order.
pub fn instruction_candidates(dirs: &Vec<String>, name: &str) -> (r: Vec<String>)
    ensures
        r@.len() == dirs@.len(),
        forall|k: int| 0 <= k < dirs@.len() ==> #[trigger] r@[k]@ == path_join(dirs@[k]@, name@),
{
    let mut r: Vec<String> = Vec::new();
    let mut k: usize = 0;
    while k < dirs.len()
        invariant
            k <= dirs@.len(),
            r@.len() == k,
            forall|m: int| 0 <= m < k ==> #[trigger] r@[m]@ == path_join(dirs@[m]@, name@),
        decreases dirs.len() - k,
    {
        r.push(join(dirs[k].as_str(), name));
        k = k + 1;
    }
    r
}

pub open spec fn unknown_instruction_message(name: Seq<char>) -> Seq<char> {
    "instruction `"@ + name
        + "` was not found in the configured instruction_dir or embedded instructions"@
}

/// The first candidate that is a file; else the embedded instruction of that name; else an error.
pub fn choose_instruction(name: &str, candidates: &Vec<String>, is_file: &Vec<bool>) -> (r: Result<
    InstructionSource,
    AppError,
>)
    requires
        candidates@.len() == is_file@.len(),
    ensures
        first_set(is_file@, 0) < is_file@.len() ==> (r matches Ok(InstructionSource::File(p))
            && p == candidates@[first_set(is_file@, 0)]),
        first_set(is_file@, 0) >= is_file@.len() && embedded_instruction_names().contains(name@)
            ==> (r matches Ok(InstructionSource::Embedded(n)) && n@ == name@),
        first_set(is_file@, 0) >= is_file@.len() && !embedded_instruction_names().contains(name@)
            ==> (r matches Err(e) && is_invalid_config(e, unknown_instruction_message(name@))),
{
    let mut k: usize = 0;
    while k < is_file.len()
        invariant
            k <= is_file@.len(),
            candidates@.len() == is_file@.len(),
            first_set(is_file@, 0) == first_set(is_file@, k as int),
        decreases is_file.len() - k,
    {
        if is_file[k] {
            return Ok(InstructionSource::File(candidates[k].clone()));
        }
        k = k + 1;
    }
    if is_embedded_instruction(name) {
        Ok(InstructionSource::Embedded(owned(name)))
    } else {
        Err(
            AppError::InvalidConfig(
                crate::config::join3(
                    "instruction `",
                    name,
                    "` was not found in the configured instruction_dir or embedded instructions",
                ),
            ),
        )
    }
}

} // verus!
