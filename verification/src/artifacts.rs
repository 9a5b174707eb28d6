//! Where a run keeps its artifacts: one directory per run, and per iteration one directory
//! per output contract holding one file per agent. Files are written by the caller.
use vstd::prelude::*;

use crate::agent::AgentOutput;
use crate::config::opt_view;
use crate::paths::{join, path_join};
use crate::text::{
    cat, chars_of, decimal, decimal_spec, owned, push_char, replace_char, replace_char_spec,
    spec_is_ascii_alphanumeric, is_ascii_alphanumeric,
};

verus! {

#[derive(Clone, Debug)]
pub struct ArtifactWorkspace {
    root: String,
}

/// A file name made of ASCII letters, digits, `-` and `_`, anything else becoming `-`.
pub open spec fn file_stem(value: Seq<char>) -> Seq<char> {
    value.map_values(|c: char| if spec_is_ascii_alphanumeric(c) || c == '-' || c == '_' {
        c
    } else {
        '-'
    })
}

pub fn sanitize_file_stem(value: &str) -> (r: String)
    ensures
        r@ == file_stem(value@),
{
    let v = chars_of(value);
    let mut r = String::new();
    let mut i: usize = 0;
    while i < v.len()
        invariant
            v@ == value@,
            i <= v@.len(),
            r@ =~= file_stem(v@.take(i as int)),
        decreases v.len() - i,
    {
        let c = v[i];
        push_char(&mut r, if is_ascii_alphanumeric(c) || c == '-' || c == '_' { c } else { '-' });
        assert(v@.take(i + 1) =~= v@.take(i as int).push(c));
        i = i + 1;
    }
    assert(v@.take(v@.len() as int) =~= v@);
    r
}

/// The directory of a run: `run-<id>` under the base directory, `orca-runs` by default.
pub open spec fn run_root_spec(base_dir: Option<Seq<char>>, run_id: u64) -> Seq<char> {
    path_join(
        match base_dir {
            Some(b) => b,
            None => "orca-runs"@,
        },
        "run-"@ + decimal_spec(run_id as nat),
    )
}

/// The directory an output goes to: its own artifact directory, else its contract with `_`
/// turned into `-`, under the iteration's directory when there is one.
pub open spec fn output_dir_spec(root: Seq<char>, iteration: Option<usize>, output: AgentOutput) -> Seq<char> {
    let artifact_dir = match opt_view(output.artifact_dir) {
        Some(d) => d,
        None => replace_char_spec(output.output_contract@, '_', '-'),
    };
    match iteration {
        Some(i) => path_join(path_join(root, "iteration-"@ + decimal_spec(i as nat)), artifact_dir),
        None => path_join(root, artifact_dir),
    }
}

pub open spec fn output_path_spec(root: Seq<char>, iteration: Option<usize>, output: AgentOutput) -> Seq<char> {
    path_join(output_dir_spec(root, iteration, output), file_stem(output.agent_id@) + ".md"@)
}

impl ArtifactWorkspace {
    pub closed spec fn root_view(self) -> Seq<char> {
        self.root@
    }

    /// A workspace whose run directory is `root`.
    pub fn at(root: String) -> (w: Self)
        ensures
            w.root_view() == root@,
    {
        ArtifactWorkspace { root }
    }

    /// The directory of a new run.
    pub fn run_root(base_dir: Option<&str>, run_id: u64) -> (r: String)
        ensures
            r@ == run_root_spec(
                match base_dir {
                    Some(b) => Some(b@),
                    None => None,
                },
                run_id,
            ),
    {
        let base = match base_dir {
            Some(b) => owned(b),
            None => owned("orca-runs"),
        };
        let n = decimal(run_id);
        let name = cat("run-", n.as_str());
        join(base.as_str(), name.as_str())
    }

    pub fn root(&self) -> (r: &str)
        ensures
            r@ == self.root_view(),
    {
        self.root.as_str()
    }

    pub fn output_dir(&self, iteration: Option<usize>, output: &AgentOutput) -> (r: String)
        ensures
            r@ == output_dir_spec(self.root_view(), iteration, *output),
    {
        let artifact_dir = match &output.artifact_dir {
            Some(d) => d.clone(),
            None => replace_char(output.output_contract.as_str(), '_', '-'),
        };
        match iteration {
            Some(i) => {
                let n = decimal(i as u64);
                let name = cat("iteration-", n.as_str());
                let it = join(self.root.as_str(), name.as_str());
                join(it.as_str(), artifact_dir.as_str())
            },
            None => join(self.root.as_str(), artifact_dir.as_str()),
        }
    }

    /// The file an output is written to.
    pub fn output_path(&self, iteration: Option<usize>, output: &AgentOutput) -> (r: String)
        ensures
            r@ == output_path_spec(self.root_view(), iteration, *output),
    {
        let dir = self.output_dir(iteration, output);
        let stem = sanitize_file_stem(output.agent_id.as_str());
        let file = cat(stem.as_str(), ".md");
        join(dir.as_str(), file.as_str())
    }
}

/// The output as persisted: the same, with where it was written.
pub fn with_artifact_path(output: &AgentOutput, path: String) -> (r: AgentOutput)
    ensures
        r.agent_id == output.agent_id,
        r.kind == output.kind,
        r.output_contract == output.output_contract,
        r.phase_label == output.phase_label,
        r.artifact_dir == output.artifact_dir,
        r.content == output.content,
        r.artifact_path == path,
{
    let mut r = output.clone();
    r.artifact_path = path;
    r
}

} // verus!
