//! Backlogs: looking one up by name.
use vstd::prelude::*;
use vstd::string::StringExecFns;

use crate::error::RangerError;
use crate::models::{Backlog, State};

verus! {

/// The backlog named `name`, given what the lookup found: it, or
/// `BacklogNotFound` naming `name` when there is none.
pub fn get_by_name(found: Option<Backlog>, name: &str) -> (r: Result<Backlog, RangerError>)
    ensures
        found is Some <==> r is Ok,
        r matches Ok(b) ==> found == Some(b),
        r matches Err(e) ==> (e matches RangerError::BacklogNotFound(n) && n@ == name@),
{
    match found {
        Some(b) => Ok(b),
        None => Err(RangerError::BacklogNotFound(String::from_str(name))),
    }
}

/// The state groups a backlog shows, in order: only done tasks when asked
/// for them, else the work in progress, then the queue, then the icebox.
pub fn shown_states(done: bool) -> (r: Vec<State>)
    ensures
        r@ == (if done {
            seq![State::Done]
        } else {
            seq![State::InProgress, State::Queued, State::Icebox]
        }),
{
    if done {
        vec![State::Done]
    } else {
        vec![State::InProgress, State::Queued, State::Icebox]
    }
}

} // verus!
