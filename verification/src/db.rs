//! Database housekeeping decisions: which database file to open, when to
//! back up before a schema upgrade, and where the copy goes.
use vstd::prelude::*;
use vstd::string::StringExecFns;

use crate::text::concat3;

verus! {

/// The database file to open: the `--db` path when given, else the
/// `RANGER_DB` path when set; `None` leaves the choice to the per-user data
/// directory.
pub fn chosen_db_path<P>(cli_path: Option<P>, env_path: Option<P>) -> (r: Option<P>)
    ensures
        r == (match cli_path {
            Some(p) => Some(p),
            None => env_path,
        }),
{
    match cli_path {
        Some(p) => Some(p),
        None => env_path,
    }
}

/// Back up before upgrading the schema only when the database already has
/// tables and some upgrade is still to be applied.
pub fn backup_needed(table_count: i64, has_pending: bool) -> (b: bool)
    ensures
        b == (table_count != 0 && has_pending),
{
    table_count != 0 && has_pending
}

/// The backup's path: the database path, a dot, the time stamp, and `.bak`.
pub fn backup_path(db_path: &str, stamp: &str) -> (p: String)
    ensures
        p@ == db_path@ + "."@ + stamp@ + ".bak"@,
{
    let mut p = concat3(db_path, ".", stamp);
    p.append(".bak");
    p
}

} // verus!
