//! Verified core of a personal task tracker: task keys and their prefixes,
//! lexicographic positions, the data model, and the decisions behind the
//! task operations.

pub mod board;
pub mod cli;
pub mod db;
pub mod editor;
pub mod error;
pub mod key;
pub mod models;
pub mod ops;
pub mod output;
pub mod position;
pub mod text;
pub mod timestamp;
