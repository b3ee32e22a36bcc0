//! Decisions of the desktop shell that are not I/O.

use vstd::prelude::*;

verus! {

/// The directory a new terminal starts in: the one the caller asked for, else the project.
pub fn working_dir(cwd: Option<String>, project_dir: &str) -> (dir: String)
    ensures
        dir@ == match cwd {
            Some(c) => c@,
            None => project_dir@,
        },
{
    match cwd {
        Some(c) => c,
        None => project_dir.to_owned(),
    }
}

} // verus!
