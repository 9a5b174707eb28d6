//! User settings: where agents, instructions and workflows are looked for, and the defaults
//! of a run.
use vstd::prelude::*;
use vstd::multiset::Multiset;

use crate::config::{clone_opt, clone_strings, either, join3, opt_view, DEFAULT_CONFIG_PATH};
use crate::errors::{
    first_problem, lemma_first_problem_none, lemma_first_problem_skip, reports, AppError,
};
use crate::paths::{
    absolute_path, directory_exists, extension, is_absolute, join, parent, path_before,
    path_equal, path_exists, path_extension, path_join, path_parent, precedes, same_path,
};
use crate::text::{cat, eq_str, is_empty_str, owned};

verus! {

pub const DEFAULT_SETTINGS_PATH: &'static str = "settings.toml";

pub const USER_SETTINGS_RELATIVE_PATH: &'static str = ".config/orca/settings.toml";

#[derive(Clone, Debug, PartialEq, Eq)]
pub struct Settings {
    pub sources: SourceSettings,
    pub defaults: DefaultRunSettings,
}

#[derive(Clone, Debug, PartialEq, Eq)]
pub struct SourceSettings {
    pub agents: Vec<String>,
    pub instructions: Vec<String>,
    pub workflows: Vec<String>,
}

#[derive(Clone, Debug, PartialEq, Eq)]
pub struct DefaultRunSettings {
    pub workflow: Option<String>,
    pub artifact_dir: Option<String>,
    pub max_parallel_agents: Option<usize>,
}

#[derive(Clone, Debug, PartialEq, Eq)]
pub struct LoadedSettings {
    pub settings: Settings,
    pub path: Option<String>,
}

fn one_path(p: &str) -> (r: Vec<String>)
    ensures
        r.deep_view() == seq![p@],
{
    let mut r: Vec<String> = Vec::new();
    r.push(owned(p));
    assert(r.deep_view() =~= seq![p@]);
    r
}

impl Default for SourceSettings {
    /// Agents in `agents`, instructions in `instructions`, workflows in `config`.
    fn default() -> (r: Self)
        ensures
            r.agents.deep_view() == seq!["agents"@],
            r.instructions.deep_view() == seq!["instructions"@],
            r.workflows.deep_view() == seq!["config"@],
    {
        SourceSettings {
            agents: one_path("agents"),
            instructions: one_path("instructions"),
            workflows: one_path("config"),
        }
    }
}

impl Default for DefaultRunSettings {
    /// The workflow `orca.default.toml`, nothing else set.
    fn default() -> (r: Self)
        ensures
            opt_view(r.workflow) == Some("orca.default.toml"@),
            r.artifact_dir is None,
            r.max_parallel_agents is None,
    {
        DefaultRunSettings {
            workflow: Some(owned("orca.default.toml")),
            artifact_dir: None,
            max_parallel_agents: None,
        }
    }
}

impl Default for Settings {
    fn default() -> (r: Self)
        ensures
            r.sources.agents.deep_view() == seq!["agents"@],
            r.sources.instructions.deep_view() == seq!["instructions"@],
            r.sources.workflows.deep_view() == seq!["config"@],
            opt_view(r.defaults.workflow) == Some("orca.default.toml"@),
            r.defaults.artifact_dir is None,
            r.defaults.max_parallel_agents is None,
    {
        Settings { sources: SourceSettings::default(), defaults: DefaultRunSettings::default() }
    }
}

// ---------------------------------------------------------------- validation

/// `not_dir[i]` tells whether source `i` exists without being a directory.
pub open spec fn source_problem(name: Seq<char>, sources: Seq<String>, not_dir: Seq<bool>, i: int) -> Option<
    Seq<char>,
> {
    if sources[i]@.len() == 0 {
        Some("settings.sources."@ + name + " must not contain empty paths"@)
    } else if not_dir[i] {
        Some("settings.sources."@ + name + " `"@ + sources[i]@ + "` must be a directory"@)
    } else {
        None
    }
}

pub open spec fn source_problems(name: Seq<char>, sources: Seq<String>, not_dir: Seq<bool>) -> spec_fn(
    int,
) -> Option<Seq<char>> {
    |i: int| source_problem(name, sources, not_dir, i)
}

pub open spec fn sources_check(name: Seq<char>, sources: Seq<String>, not_dir: Seq<bool>) -> Option<
    Seq<char>,
> {
    first_problem(source_problems(name, sources, not_dir), 0, sources.len() as int)
}

/// What validating settings refuses, given which sources exist without being directories.
pub open spec fn settings_problem(s: Settings, a: Seq<bool>, i: Seq<bool>, w: Seq<bool>) -> Option<
    Seq<char>,
> {
    either(
        sources_check("agents"@, s.sources.agents@, a),
        either(
            sources_check("instructions"@, s.sources.instructions@, i),
            either(
                sources_check("workflows"@, s.sources.workflows@, w),
                if s.defaults.max_parallel_agents == Some(0usize) {
                    Some("settings.defaults.max_parallel_agents must be greater than zero"@)
                } else {
                    None
                },
            ),
        ),
    )
}

fn validate_sources(name: &str, sources: &Vec<String>, not_dir: &Vec<bool>) -> (r: Result<
    (),
    AppError,
>)
    requires
        not_dir@.len() == sources@.len(),
    ensures
        reports(r, sources_check(name@, sources@, not_dir@)),
{
    let ghost f = source_problems(name@, sources@, not_dir@);
    let n = sources.len();
    let mut i: usize = 0;
    while i < n
        invariant
            f == source_problems(name@, sources@, not_dir@),
            n == sources@.len(),
            not_dir@.len() == n,
            i <= n,
            forall|j: int| 0 <= j < i ==> (#[trigger] f(j)) is None,
        decreases n - i,
    {
        proof {
            lemma_first_problem_skip(f, 0, i as int, n as int);
        }
        let source = &sources[i];
        if is_empty_str(source.as_str()) {
            let head = cat("settings.sources.", name);
            return Err(AppError::InvalidConfig(cat(head.as_str(), " must not contain empty paths")));
        }
        if not_dir[i] {
            let head = cat("settings.sources.", name);
            let mid = join3(head.as_str(), " `", source.as_str());
            return Err(AppError::InvalidConfig(cat(mid.as_str(), "` must be a directory")));
        }
        i = i + 1;
    }
    proof {
        lemma_first_problem_none(f, 0, n as int);
    }
    Ok(())
}

/// For each source, whether it exists without being a directory.
fn non_directories(sources: &Vec<String>) -> (r: Vec<bool>)
    ensures
        r@.len() == sources@.len(),
{
    let mut r: Vec<bool> = Vec::new();
    let mut i: usize = 0;
    while i < sources.len()
        invariant
            i <= sources@.len(),
            r@.len() == i,
        decreases sources.len() - i,
    {
        let p = sources[i].as_str();
        r.push(path_exists(p) && !directory_exists(p));
        i = i + 1;
    }
    r
}

/// Asks the disk, for each path in order, whether something exists there.
pub(crate) fn exists_each(paths: &Vec<String>) -> (r: Vec<bool>)
    ensures
        r@.len() == paths@.len(),
{
    let mut r: Vec<bool> = Vec::new();
    let mut i: usize = 0;
    while i < paths.len()
        invariant
            i <= paths@.len(),
            r@.len() == i,
        decreases paths.len() - i,
    {
        r.push(path_exists(paths[i].as_str()));
        i = i + 1;
    }
    r
}

// ---------------------------------------------------------------- workflow resolution

/// The workflow asked for: the requested path unless empty, else the default workflow, else
/// the built-in default.
pub open spec fn requested_workflow(s: Settings, requested: Option<Seq<char>>) -> Seq<char> {
    match requested {
        Some(p) if p.len() > 0 => p,
        _ => match s.defaults.workflow {
            Some(w) => w@,
            None => DEFAULT_CONFIG_PATH@,
        },
    }
}

/// The first source in which the path exists, by `found`.
pub open spec fn first_found(found: Seq<bool>, k: int) -> int
    decreases found.len() - k,
{
    if k >= found.len() {
        found.len() as int
    } else if found[k] {
        k
    } else {
        first_found(found, k + 1)
    }
}

/// Where a workflow path leads, given whether it exists as given (`path_found`) and under
/// each source (`found`): as given when it exists, is absolute or names a directory;
/// otherwise under the first source where it exists, else under the first source, else as
/// given.
pub open spec fn resolved_in_sources(
    path: Seq<char>,
    sources: Seq<Seq<char>>,
    path_found: bool,
    found: Seq<bool>,
) -> Seq<char> {
    if path_found || absolute_path(path) {
        path
    } else if path_parent(path) matches Some(p) && p.len() > 0 {
        path
    } else {
        let k = first_found(found, 0);
        if k < sources.len() {
            path_join(sources[k], path)
        } else if sources.len() > 0 {
            path_join(sources[0], path)
        } else {
            path
        }
    }
}

/// The lookup of a workflow path among the sources, with what the disk says as arguments.
pub fn resolve_in_sources(path: &str, sources: &Vec<String>, path_found: bool, found: &Vec<bool>) -> (r: String)
    requires
        found@.len() == sources@.len(),
    ensures
        r@ == resolved_in_sources(path@, sources.deep_view(), path_found, found@),
{
    if path_found || is_absolute(path) {
        return owned(path);
    }
    match parent(path) {
        Some(p) => {
            if !is_empty_str(p.as_str()) {
                return owned(path);
            }
        },
        None => {},
    }
    let mut k: usize = 0;
    while k < found.len() && !found[k]
        invariant
            k <= found@.len(),
            first_found(found@, 0) == first_found(found@, k as int),
        decreases found.len() - k,
    {
        k = k + 1;
    }
    if k < sources.len() {
        join(sources[k].as_str(), path)
    } else if sources.len() > 0 {
        join(sources[0].as_str(), path)
    } else {
        owned(path)
    }
}

pub open spec fn opt_str(o: Option<&str>) -> Option<Seq<char>> {
    match o {
        Some(s) => Some(s@),
        None => None,
    }
}

pub open spec fn opt_seq(o: Option<&str>) -> Seq<Seq<char>> {
    match o {
        Some(s) => seq![s@],
        None => Seq::empty(),
    }
}

impl Settings {
    /// Validation given, for each source list, which sources exist without being
    /// directories.
    pub fn validate_given(
        &self,
        agents_not_dir: &Vec<bool>,
        instructions_not_dir: &Vec<bool>,
        workflows_not_dir: &Vec<bool>,
    ) -> (r: Result<(), AppError>)
        requires
            agents_not_dir@.len() == self.sources.agents@.len(),
            instructions_not_dir@.len() == self.sources.instructions@.len(),
            workflows_not_dir@.len() == self.sources.workflows@.len(),
        ensures
            reports(
                r,
                settings_problem(*self, agents_not_dir@, instructions_not_dir@, workflows_not_dir@),
            ),
    {
        proof {
            reveal_strlit("agents");
            reveal_strlit("instructions");
            reveal_strlit("workflows");
        }
        let a = validate_sources("agents", &self.sources.agents, agents_not_dir);
        if a.is_err() {
            return a;
        }
        let i = validate_sources("instructions", &self.sources.instructions, instructions_not_dir);
        if i.is_err() {
            return i;
        }
        let w = validate_sources("workflows", &self.sources.workflows, workflows_not_dir);
        if w.is_err() {
            return w;
        }
        if self.defaults.max_parallel_agents == Some(0usize) {
            return Err(
                AppError::InvalidConfig(
                    owned("settings.defaults.max_parallel_agents must be greater than zero"),
                ),
            );
        }
        Ok(())
    }

    /// Sources must be non-empty paths that, when they exist, are directories, and the
    /// default parallelism must be positive. The disk is asked about each source path as
    /// given, agents first, then instructions, then workflows; `a`, `i` and `w` are its
    /// answers, in that order.
    pub fn validate(&self) -> (r: Result<(), AppError>)
        ensures
            exists|a: Seq<bool>, i: Seq<bool>, w: Seq<bool>|
                a.len() == self.sources.agents@.len() && i.len()
                    == self.sources.instructions@.len() && w.len()
                    == self.sources.workflows@.len() && #[trigger] reports(
                    r,
                    settings_problem(*self, a, i, w),
                ),
    {
        let a = non_directories(&self.sources.agents);
        let i = non_directories(&self.sources.instructions);
        let w = non_directories(&self.sources.workflows);
        let r = self.validate_given(&a, &i, &w);
        assert(reports(r, settings_problem(*self, a@, i@, w@)));
        r
    }

    /// The paths whose existence decides where a workflow leads: the workflow asked for, then
    /// that path under each workflow source, in order.
    pub fn workflow_candidates(&self, requested: Option<&str>) -> (r: Vec<String>)
        ensures
            r.deep_view() == seq![requested_workflow(*self, opt_str(requested))]
                + self.sources.workflows.deep_view().map_values(
                |s: Seq<char>| path_join(s, requested_workflow(*self, opt_str(requested))),
            ),
    {
        let path = match requested {
            Some(p) if !is_empty_str(p) => owned(p),
            _ => match &self.defaults.workflow {
                Some(w) => owned(w.as_str()),
                None => owned(DEFAULT_CONFIG_PATH),
            },
        };
        let ghost p = requested_workflow(*self, opt_str(requested));
        assert(path@ == p);
        let ghost sources = self.sources.workflows.deep_view();
        let mut r: Vec<String> = Vec::new();
        r.push(path);
        let mut k: usize = 0;
        while k < self.sources.workflows.len()
            invariant
                k <= self.sources.workflows@.len(),
                sources == self.sources.workflows.deep_view(),
                r@.len() == k + 1,
                r.deep_view() == seq![p] + sources.take(k as int).map_values(
                    |s: Seq<char>| path_join(s, p),
                ),
            decreases self.sources.workflows.len() - k,
        {
            let candidate = join(self.sources.workflows[k].as_str(), r[0].as_str());
            proof {
                assert(r.deep_view()[0] == p);
                assert(sources[k as int] == self.sources.workflows@[k as int]@);
            }
            let ghost old_r = r.deep_view();
            r.push(candidate);
            proof {
                assert(r.deep_view() =~= old_r.push(path_join(sources[k as int], p)));
                assert(sources.take(k + 1) =~= sources.take(k as int).push(sources[k as int]));
                assert(sources.take(k + 1).map_values(|s: Seq<char>| path_join(s, p))
                    =~= sources.take(k as int).map_values(|s: Seq<char>| path_join(s, p)).push(
                    path_join(sources[k as int], p),
                ));
                assert(r.deep_view() =~= seq![p] + sources.take(k + 1).map_values(
                    |s: Seq<char>| path_join(s, p),
                ));
            }
            k = k + 1;
        }
        proof {
            assert(sources.take(k as int) =~= sources);
        }
        r
    }

    /// The workflow file to load: the requested one (or the default) looked up among the
    /// workflow sources. The disk is asked whether each of `workflow_candidates` exists, in
    /// order; the first answer is for the path as given, the others for the sources.
    pub fn resolve_workflow_config(&self, requested: Option<&str>) -> (r: String)
        ensures
            exists|answers: Seq<bool>|
                answers.len() == self.sources.workflows@.len() + 1 && r@
                    == #[trigger] resolved_in_sources(
                    requested_workflow(*self, opt_str(requested)),
                    self.sources.workflows.deep_view(),
                    answers[0],
                    answers.skip(1),
                ),
    {
        let candidates = self.workflow_candidates(requested);
        assert(candidates@.len() == candidates.deep_view().len());
        assert(self.sources.workflows@.len() == self.sources.workflows.deep_view().len());
        let answers = exists_each(&candidates);
        let mut found: Vec<bool> = Vec::new();
        let mut k: usize = 1;
        while k < answers.len()
            invariant
                1 <= k <= answers@.len(),
                answers@.len() == self.sources.workflows@.len() + 1,
                found@ == answers@.subrange(1, k as int),
            decreases answers.len() - k,
        {
            found.push(answers[k]);
            proof {
                assert(answers@.subrange(1, k + 1) =~= answers@.subrange(1, k as int).push(
                    answers@[k as int],
                ));
            }
            k = k + 1;
        }
        proof {
            assert(answers@.subrange(1, k as int) =~= answers@.skip(1));
            assert(candidates.deep_view()[0] == candidates@[0]@);
        }
        let r = resolve_in_sources(
            candidates[0].as_str(),
            &self.sources.workflows,
            answers[0],
            &found,
        );
        assert(r@ == resolved_in_sources(
            requested_workflow(*self, opt_str(requested)),
            self.sources.workflows.deep_view(),
            answers@[0],
            answers@.skip(1),
        ));
        r
    }

    /// Where instructions are looked for: the explicit directory, the configured sources,
    /// then the directory of the workflow.
    pub fn instruction_sources(&self, explicit_dir: Option<&str>, config_dir: Option<&str>) -> (r: Vec<String>)
        ensures
            r.deep_view() == opt_seq(explicit_dir) + self.sources.instructions.deep_view() + opt_seq(
                config_dir,
            ),
    {
        let mut r: Vec<String> = Vec::new();
        match explicit_dir {
            Some(d) => r.push(owned(d)),
            None => {},
        }
        let ghost head = r.deep_view();
        assert(head =~= opt_seq(explicit_dir));
        let mut middle = clone_strings(&self.sources.instructions);
        r.append(&mut middle);
        assert(r.deep_view() =~= head + self.sources.instructions.deep_view());
        let ghost body = r.deep_view();
        match config_dir {
            Some(d) => r.push(owned(d)),
            None => {},
        }
        assert(r.deep_view() =~= body + opt_seq(config_dir));
        r
    }

    pub fn default_artifact_dir(&self) -> (r: Option<String>)
        ensures
            opt_view(r) == opt_view(self.defaults.artifact_dir),
    {
        clone_opt(&self.defaults.artifact_dir)
    }

    pub fn default_max_parallel_agents(&self) -> (r: Option<usize>)
        ensures
            r == self.defaults.max_parallel_agents,
    {
        self.defaults.max_parallel_agents
    }
}

/// The home directory's settings file: under `home` when set and non-empty, else under
/// `user_profile` when set and non-empty.
pub open spec fn user_settings_path_spec(home: Option<Seq<char>>, user_profile: Option<Seq<char>>) -> Option<
    Seq<char>,
> {
    match home {
        Some(h) if h.len() > 0 => Some(path_join(h, USER_SETTINGS_RELATIVE_PATH@)),
        _ => match user_profile {
            Some(u) if u.len() > 0 => Some(path_join(u, USER_SETTINGS_RELATIVE_PATH@)),
            _ => None,
        },
    }
}

/// The settings files tried in turn: `settings.toml`, then the one in the home directory
/// (from the `HOME` or `USERPROFILE` values given).
pub fn default_settings_candidates(home: Option<&str>, user_profile: Option<&str>) -> (r: Vec<
    String,
>)
    ensures
        r.deep_view() == seq![DEFAULT_SETTINGS_PATH@] + match user_settings_path_spec(
            opt_str(home),
            opt_str(user_profile),
        ) {
            Some(p) => seq![p],
            None => Seq::empty(),
        },
{
    let mut r: Vec<String> = Vec::new();
    r.push(owned(DEFAULT_SETTINGS_PATH));
    let base: Option<&str> = match home {
        Some(h) if !is_empty_str(h) => Some(h),
        _ => match user_profile {
            Some(u) if !is_empty_str(u) => Some(u),
            _ => None,
        },
    };
    match base {
        Some(b) => {
            r.push(join(b, USER_SETTINGS_RELATIVE_PATH));
        },
        None => {},
    }
    assert(r.deep_view() =~= seq![DEFAULT_SETTINGS_PATH@] + match user_settings_path_spec(
        opt_str(home),
        opt_str(user_profile),
    ) {
        Some(p) => seq![p],
        None => Seq::empty(),
    });
    r
}

/// Workflow files end in `.toml`, `.yaml` or `.yml`.
pub open spec fn is_workflow_file(path: Seq<char>) -> bool {
    match path_extension(path) {
        Some(e) => e == "toml"@ || e == "yaml"@ || e == "yml"@,
        None => false,
    }
}

pub fn is_workflow_config(path: &str) -> (r: bool)
    ensures
        r == is_workflow_file(path@),
{
    match extension(path) {
        Some(e) => eq_str(e.as_str(), "toml") || eq_str(e.as_str(), "yaml") || eq_str(
            e.as_str(),
            "yml",
        ),
        None => false,
    }
}

/// The predicate of workflow files, for filtering.
pub open spec fn workflow_entry() -> spec_fn(String) -> bool {
    |p: String| is_workflow_file(p@)
}

/// No path is followed by one that comes before it in `Path`'s order.
pub open spec fn ordered_as_paths(s: Seq<String>) -> bool {
    forall|i: int, j: int|
        #![trigger s[i], s[j]]
        0 <= i && j == i + 1 && j < s.len() ==> !path_before(s[j]@, s[i]@)
}

/// `x` put into `s` just after the last entry that it does not come before.
pub open spec fn insert_path(s: Seq<String>, x: String) -> Seq<String>
    decreases s.len(),
{
    if s.len() == 0 || !path_before(x@, s.last()@) {
        s.push(x)
    } else {
        insert_path(s.drop_last(), x).push(s.last())
    }
}

/// The stable sort of `s` by `Path`'s order (`Vec::sort`): each entry in turn is put after
/// the entries before it that it does not come before.
pub open spec fn sort_paths(s: Seq<String>) -> Seq<String>
    decreases s.len(),
{
    if s.len() == 0 {
        Seq::empty()
    } else {
        insert_path(sort_paths(s.drop_last()), s.last())
    }
}

/// `Vec::dedup` on paths: an entry is dropped when it equals, as a path, the last one kept.
pub open spec fn path_dedup(s: Seq<String>) -> Seq<String>
    decreases s.len(),
{
    if s.len() == 0 {
        Seq::empty()
    } else {
        let kept = path_dedup(s.drop_last());
        if kept.len() > 0 && path_equal(s.last()@, kept.last()@) {
            kept
        } else {
            kept.push(s.last())
        }
    }
}

proof fn lemma_insert_path_after(s: Seq<String>, x: String, j: int)
    requires
        0 <= j <= s.len(),
        forall|k: int| j <= k < s.len() ==> path_before(x@, #[trigger] s[k]@),
    ensures
        insert_path(s, x) == insert_path(s.take(j), x) + s.skip(j),
    decreases s.len(),
{
    if j == s.len() {
        assert(s.take(j) =~= s);
        assert(s.skip(j) =~= Seq::<String>::empty());
        assert(insert_path(s.take(j), x) + s.skip(j) =~= insert_path(s.take(j), x));
    } else {
        let d = s.drop_last();
        assert(path_before(x@, s[s.len() - 1]@));
        lemma_insert_path_after(d, x, j);
        assert(d.take(j) =~= s.take(j));
        assert(d.skip(j).push(s.last()) =~= s.skip(j));
        assert((insert_path(d.take(j), x) + d.skip(j)).push(s.last()) =~= insert_path(
            s.take(j),
            x,
        ) + s.skip(j));
    }
}

fn insert_by_path(sorted: &mut Vec<String>, x: String)
    ensures
        final(sorted)@ == insert_path(old(sorted)@, x),
        final(sorted)@.to_multiset() == old(sorted)@.to_multiset().insert(x),
        ordered_as_paths(old(sorted)@) ==> ordered_as_paths(final(sorted)@),
{
    let ghost before = sorted@;
    let mut j: usize = sorted.len();
    while j > 0
        invariant
            j <= sorted.len(),
            sorted@ == before,
            j < sorted.len() ==> !path_before(sorted@[j as int]@, x@),
            forall|k: int| j <= k < before.len() ==> path_before(x@, #[trigger] before[k]@),
        ensures
            j <= sorted.len(),
            sorted@ == before,
            j < sorted.len() ==> !path_before(sorted@[j as int]@, x@),
            forall|k: int| j <= k < before.len() ==> path_before(x@, #[trigger] before[k]@),
            j == 0 || !path_before(x@, sorted@[j - 1]@),
        decreases j,
    {
        if !precedes(x.as_str(), sorted[j - 1].as_str()) {
            break;
        }
        j = j - 1;
    }
    let ghost at = j as int;
    proof {
        lemma_insert_path_after(before, x, at);
        if at > 0 {
            assert(before.take(at).last() == before[at - 1]);
        }
        assert(insert_path(before.take(at), x) == before.take(at).push(x));
        assert(before.take(at).push(x) + before.skip(at) =~= before.insert(at, x));
    }
    sorted.insert(j, x);
    proof {
        let t = sorted@;
        assert(t == before.insert(at, x));
        if ordered_as_paths(before) {
            assert forall|i: int, k: int|
                #![trigger t[i], t[k]]
                0 <= i && k == i + 1 && k < t.len() implies !path_before(t[k]@, t[i]@) by {
                if k < at {
                    assert(t[i] == before[i] && t[k] == before[k]);
                } else if k == at {
                    assert(t[i] == before[at - 1] && t[k] == x);
                } else if i == at {
                    assert(t[i] == x && t[k] == before[at]);
                } else {
                    assert(t[i] == before[i - 1] && t[k] == before[i]);
                }
            }
        }
        vstd::seq_lib::to_multiset_insert(before, at, x);
    }
}

proof fn lemma_no_entries(s: Seq<String>)
    requires
        s.len() == 0,
    ensures
        s.to_multiset() =~= Multiset::empty(),
{
    broadcast use vstd::multiset::group_multiset_axioms;

    assert forall|a: String| s.to_multiset().count(a) == Multiset::<String>::empty().count(a) by {
        vstd::seq_lib::to_multiset_contains(s, a);
    }
}

fn dedup_paths(sorted: Vec<String>) -> (r: Vec<String>)
    ensures
        r@ == path_dedup(sorted@),
{
    let ghost all = sorted@;
    let mut rest = sorted;
    let count: usize = rest.len();
    assert(all.len() == count);
    let mut r: Vec<String> = Vec::new();
    let mut i: usize = 0;
    while rest.len() > 0
        invariant
            i <= all.len(),
            all.len() <= usize::MAX,
            rest@ == all.skip(i as int),
            r@ == path_dedup(all.take(i as int)),
        decreases rest.len(),
    {
        let x = rest.remove(0);
        proof {
            assert(all.take(i + 1).drop_last() =~= all.take(i as int));
            assert(x == all[i as int]);
            assert(all.skip(i + 1) =~= all.skip(i as int).remove(0));
        }
        let n = r.len();
        if n > 0 && same_path(x.as_str(), r[n - 1].as_str()) {
        } else {
            r.push(x);
        }
        i = i + 1;
    }
    proof {
        assert(all.take(i as int) =~= all);
    }
    r
}

/// Workflow configuration files listed by a settings page: of the files found under the
/// workflow directories, in the order found, those with a workflow extension, sorted as paths
/// (`Vec::sort`, which keeps equal paths in the order found) and with each path that equals
/// the one kept before it dropped (`Vec::dedup`). The sorted list is a reordering of the
/// workflow files in which no path is followed by one that comes before it.
pub fn workflow_configs_of(found: Vec<String>) -> (r: Vec<String>)
    ensures
        r@ == path_dedup(sort_paths(found@.filter(workflow_entry()))),
        ordered_as_paths(sort_paths(found@.filter(workflow_entry()))),
        sort_paths(found@.filter(workflow_entry())).to_multiset() == found@.filter(
            workflow_entry(),
        ).to_multiset(),
{
    let ghost all = found@;
    let mut rest = found;
    let count: usize = rest.len();
    assert(all.len() == count);
    let mut sorted: Vec<String> = Vec::new();
    let mut i: usize = 0;
    proof {
        reveal(Seq::filter);
        assert(all.take(0).filter(workflow_entry()) =~= Seq::<String>::empty());
        lemma_no_entries(sorted@);
        lemma_no_entries(all.take(0).filter(workflow_entry()));
    }
    while rest.len() > 0
        invariant
            i <= all.len(),
            all.len() <= usize::MAX,
            rest@ == all.skip(i as int),
            sorted@ == sort_paths(all.take(i as int).filter(workflow_entry())),
            ordered_as_paths(sorted@),
            sorted@.to_multiset() == all.take(i as int).filter(workflow_entry()).to_multiset(),
        decreases rest.len(),
    {
        let x = rest.remove(0);
        let ghost done = all.take(i as int).filter(workflow_entry());
        proof {
            reveal(Seq::filter);
            assert(all.take(i + 1).drop_last() =~= all.take(i as int));
            assert(x == all[i as int]);
            assert(all.take(i + 1).last() == x);
            assert(all.skip(i + 1) =~= all.skip(i as int).remove(0));
        }
        if is_workflow_config(x.as_str()) {
            proof {
                assert(all.take(i + 1).filter(workflow_entry()) == done.push(x));
                assert(done.push(x).drop_last() =~= done);
                vstd::seq_lib::to_multiset_build(done, x);
            }
            insert_by_path(&mut sorted, x);
        } else {
            proof {
                assert(all.take(i + 1).filter(workflow_entry()) == done);
            }
        }
        i = i + 1;
    }
    proof {
        assert(all.take(i as int) =~= all);
    }
    dedup_paths(sorted)
}

} // verus!
