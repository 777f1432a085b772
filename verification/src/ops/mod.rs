//! Operations on backlogs, tasks and edges: the decisions they make.

pub mod backlog;
pub mod dag;
pub mod edge;
pub mod task;
