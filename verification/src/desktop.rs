//! What the desktop front end shows of workflow files and runs.
use vstd::prelude::*;
use crate::paths::{file_name, parent, path_file_name, path_parent};
use crate::text::{cat, decimal, decimal_spec, owned, spec_trim, trim};

verus! {

/// A workflow file as the desktop front end lists it.
#[derive(Clone, Debug, PartialEq, Eq)]
pub struct WorkflowConfigDto {
    pub path: String,
    pub name: String,
    pub directory: String,
}

/// The file's path, its name (or `workflow`) and its directory (or nothing).
pub fn workflow_config_dto(path: String) -> (d: WorkflowConfigDto)
    ensures
        d.path == path,
        d.name@ == match path_file_name(path@) {
            Some(n) => n,
            None => "workflow"@,
        },
        d.directory@ == match path_parent(path@) {
            Some(p) => p,
            None => Seq::<char>::empty(),
        },
{
    let name = match file_name(path.as_str()) {
        Some(n) => n,
        None => owned("workflow"),
    };
    let directory = match parent(path.as_str()) {
        Some(p) => p,
        None => String::new(),
    };
    WorkflowConfigDto { path, name, directory }
}

/// The trimmed value, where one is given and something is left.
pub fn optional_path(value: Option<&str>) -> (r: Option<String>)
    ensures
        match value {
            Some(v) => if spec_trim(v@).len() == 0 {
                r is None
            } else {
                r matches Some(p) && p@ == spec_trim(v@)
            },
            None => r is None,
        },
{
    match value {
        Some(v) => {
            let t = trim(v);
            if t.as_str().is_empty() {
                None
            } else {
                Some(t)
            }
        },
        None => None,
    }
}

/// The id of a run started at the given milliseconds: `run-` and the number.
pub fn run_id_for(millis: u64) -> (r: String)
    ensures
        r@ == "run-"@ + decimal_spec(millis as nat),
{
    let digits = decimal(millis);
    cat("run-", digits.as_str())
}

} // verus!
