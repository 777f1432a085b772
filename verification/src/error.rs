//! Errors the library reports.
use vstd::prelude::*;

use vstd::string::StringExecFns;

use crate::text::concat3;

verus! {

/// What can go wrong in the library's own logic.
#[derive(Debug)]
pub enum RangerError {
    /// No key starts with the given prefix.
    KeyNotFound(String),
    /// More than one key starts with the given prefix.
    AmbiguousPrefix(String),
    /// A task was to be moved next to a task in another state.
    StateMismatch { task_state: String, anchor_state: String },
    /// No backlog has the given name.
    BacklogNotFound(String),
    /// Adding an edge would close a cycle.
    CycleDetected,
    /// The command line asked for something that cannot be done.
    Usage(String),
}

/// The text of an error.
pub open spec fn error_message(e: RangerError) -> Seq<char> {
    match e {
        RangerError::KeyNotFound(p) => "no key matching prefix '"@ + p@ + "'"@,
        RangerError::AmbiguousPrefix(p) => "ambiguous prefix '"@ + p@ + "' matches multiple keys"@,
        RangerError::StateMismatch { task_state, anchor_state } => "can't move "@ + task_state@
            + " task relative to "@ + anchor_state@ + " task"@,
        RangerError::BacklogNotFound(n) => "backlog not found: '"@ + n@ + "'"@,
        RangerError::CycleDetected => "adding this edge would create a cycle"@,
        RangerError::Usage(m) => m@,
    }
}

impl RangerError {
    /// The human-readable text of the error.
    pub fn message(&self) -> (s: String)
        ensures
            s@ == error_message(*self),
    {
        match self {
            RangerError::KeyNotFound(p) => concat3("no key matching prefix '", p.as_str(), "'"),
            RangerError::AmbiguousPrefix(p) => concat3(
                "ambiguous prefix '",
                p.as_str(),
                "' matches multiple keys",
            ),
            RangerError::StateMismatch { task_state, anchor_state } => {
                let head = concat3("can't move ", task_state.as_str(), " task relative to ");
                concat3(head.as_str(), anchor_state.as_str(), " task")
            },
            RangerError::BacklogNotFound(n) => concat3("backlog not found: '", n.as_str(), "'"),
            RangerError::CycleDetected => String::from_str("adding this edge would create a cycle"),
            RangerError::Usage(m) => m.clone(),
        }
    }
}

} // verus!
