//! Where tasks go: the position a task gets when it is created, moved next
//! to another task, or changes state, computed from the positions of the
//! tasks in its backlog.
use vstd::prelude::*;

use vstd::string::StringExecFns;

use crate::error::RangerError;
use crate::key::{generate_key, is_key_char, KEY_LENGTH};
use crate::models::{State, Task};
use crate::position::{
    between, between_spec, fill_spec, is_position, is_valid_position, lemma_between, lemma_lex_irreflexive,
    lemma_lex_total, lemma_lex_transitive, lex_less, lex_lt, spread, strictly_sorted,
};

verus! {

/// Every task's position is a well-formed position (as `between` and
/// `spread` make them).
pub open spec fn positions_ok(tasks: Seq<Task>) -> bool {
    forall|i: int| 0 <= i < tasks.len() ==> is_position(#[trigger] tasks[i].position@)
}

/// Whether every task's position is well-formed.
pub fn positions_well_formed(tasks: &[Task]) -> (b: bool)
    ensures
        b == positions_ok(tasks@),
{
    let mut i: usize = 0;
    while i < tasks.len()
        invariant
            i <= tasks@.len(),
            forall|k: int| 0 <= k < i ==> is_position(#[trigger] tasks@[k].position@),
        decreases tasks.len() - i,
    {
        if !is_valid_position(tasks[i].position.as_str()) {
            return false;
        }
        i = i + 1;
    }
    true
}

/// Giving one task a position that `create`, `move_task`, `reorder` or
/// `rebalance` computed keeps every position of the backlog well-formed.
pub proof fn lemma_placement_keeps_positions_ok(tasks: Seq<Task>, i: int, t: Task)
    requires
        positions_ok(tasks),
        0 <= i < tasks.len(),
        is_position(t.position@),
    ensures
        positions_ok(tasks.update(i, t)),
{
    assert forall|k: int| 0 <= k < tasks.len() implies is_position(#[trigger] tasks.update(i, t)[k].position@) by {
        if k != i {
            assert(tasks.update(i, t)[k] == tasks[k]);
        }
    }
}

/// The characters of an optional string.
pub open spec fn opt_chars(s: Option<&str>) -> Option<Seq<char>> {
    match s {
        Some(x) => Some(x@),
        None => None,
    }
}

/// The characters of an optional owned string.
pub open spec fn opt_string(s: Option<String>) -> Option<Seq<char>> {
    match s {
        Some(x) => Some(x@),
        None => None,
    }
}

/// The sequence, or the empty sequence for `None`.
pub open spec fn or_empty(p: Option<Seq<char>>) -> Seq<char> {
    match p {
        Some(x) => x,
        None => Seq::empty(),
    }
}

/// The tasks a position query looks at: all but the excluded task, only
/// those in `state` when one is given, and only those strictly above `above`
/// and strictly below `below` when these are given.
pub open spec fn selects(
    t: Task,
    exclude: Option<i64>,
    state: Option<State>,
    above: Option<Seq<char>>,
    below: Option<Seq<char>>,
) -> bool {
    &&& (exclude matches Some(x) ==> t.id != x)
    &&& (state matches Some(s) ==> t.state == s)
    &&& (above matches Some(a) ==> lex_lt(a, t.position@))
    &&& (below matches Some(b) ==> lex_lt(t.position@, b))
}

/// `r` is the greatest position among the selected tasks.
pub open spec fn is_greatest(
    tasks: Seq<Task>,
    exclude: Option<i64>,
    state: Option<State>,
    above: Option<Seq<char>>,
    below: Option<Seq<char>>,
    r: Seq<char>,
) -> bool {
    &&& exists|i: int|
        0 <= i < tasks.len() && selects(#[trigger] tasks[i], exclude, state, above, below)
            && tasks[i].position@ == r
    &&& forall|i: int|
        0 <= i < tasks.len() && selects(#[trigger] tasks[i], exclude, state, above, below) ==> !lex_lt(
            r,
            tasks[i].position@,
        )
}

/// `r` is the least position among the selected tasks.
pub open spec fn is_least(
    tasks: Seq<Task>,
    exclude: Option<i64>,
    state: Option<State>,
    above: Option<Seq<char>>,
    below: Option<Seq<char>>,
    r: Seq<char>,
) -> bool {
    &&& exists|i: int|
        0 <= i < tasks.len() && selects(#[trigger] tasks[i], exclude, state, above, below)
            && tasks[i].position@ == r
    &&& forall|i: int|
        0 <= i < tasks.len() && selects(#[trigger] tasks[i], exclude, state, above, below) ==> !lex_lt(
            tasks[i].position@,
            r,
        )
}

/// The greatest position among the selected tasks; `None` when no task is
/// selected.
pub open spec fn greatest_of(
    tasks: Seq<Task>,
    exclude: Option<i64>,
    state: Option<State>,
    above: Option<Seq<char>>,
    below: Option<Seq<char>>,
) -> Option<Seq<char>> {
    if exists|r: Seq<char>| is_greatest(tasks, exclude, state, above, below, r) {
        Some(choose|r: Seq<char>| is_greatest(tasks, exclude, state, above, below, r))
    } else {
        None
    }
}

/// The least position among the selected tasks; `None` when no task is
/// selected.
pub open spec fn least_of(
    tasks: Seq<Task>,
    exclude: Option<i64>,
    state: Option<State>,
    above: Option<Seq<char>>,
    below: Option<Seq<char>>,
) -> Option<Seq<char>> {
    if exists|r: Seq<char>| is_least(tasks, exclude, state, above, below, r) {
        Some(choose|r: Seq<char>| is_least(tasks, exclude, state, above, below, r))
    } else {
        None
    }
}

/// Whether `t` is selected by the query.
fn selected(t: &Task, exclude: Option<i64>, state: Option<State>, above: Option<&str>, below: Option<&str>) -> (b: bool)
    ensures
        b == selects(*t, exclude, state, opt_chars(above), opt_chars(below)),
{
    let ok_id = match exclude {
        Some(x) => t.id != x,
        None => true,
    };
    let ok_state = match state {
        Some(s) => t.state == s,
        None => true,
    };
    let ok_above = match above {
        Some(a) => lex_less(a, t.position.as_str()),
        None => true,
    };
    let ok_below = match below {
        Some(b) => lex_less(t.position.as_str(), b),
        None => true,
    };
    ok_id && ok_state && ok_above && ok_below
}

/// The greatest position among the selected tasks.
fn greatest_position(
    tasks: &[Task],
    exclude: Option<i64>,
    state: Option<State>,
    above: Option<&str>,
    below: Option<&str>,
) -> (r: Option<String>)
    ensures
        opt_string(r) == greatest_of(tasks@, exclude, state, opt_chars(above), opt_chars(below)),
        r matches Some(p) ==> is_greatest(tasks@, exclude, state, opt_chars(above), opt_chars(below), p@),
        r is None ==> forall|j: int|
            0 <= j < tasks@.len() ==> !selects(#[trigger] tasks@[j], exclude, state, opt_chars(above), opt_chars(below)),
{
    let ghost ab = opt_chars(above);
    let ghost be = opt_chars(below);
    let mut best: Option<usize> = None;
    let mut i: usize = 0;
    while i < tasks.len()
        invariant
            i <= tasks@.len(),
            ab == opt_chars(above),
            be == opt_chars(below),
            match best {
                Some(b) => b < i && selects(tasks@[b as int], exclude, state, ab, be) && forall|j: int|
                    0 <= j < i && selects(#[trigger] tasks@[j], exclude, state, ab, be) ==> !lex_lt(
                        tasks@[b as int].position@,
                        tasks@[j].position@,
                    ),
                None => forall|j: int| 0 <= j < i ==> !selects(#[trigger] tasks@[j], exclude, state, ab, be),
            },
        decreases tasks.len() - i,
    {
        if selected(&tasks[i], exclude, state, above, below) {
            match best {
                None => {
                    best = Some(i);
                    proof {
                        lemma_lex_irreflexive(tasks@[i as int].position@);
                    }
                },
                Some(b) => {
                    if lex_less(tasks[b].position.as_str(), tasks[i].position.as_str()) {
                        proof {
                            let pb = tasks@[b as int].position@;
                            let pi = tasks@[i as int].position@;
                            lemma_lex_irreflexive(pi);
                            assert forall|j: int|
                                0 <= j < i + 1 && selects(#[trigger] tasks@[j], exclude, state, ab, be) implies !lex_lt(
                                pi,
                                tasks@[j].position@,
                            ) by {
                                if j < i && lex_lt(pi, tasks@[j].position@) {
                                    lemma_lex_transitive(pb, pi, tasks@[j].position@);
                                }
                            }
                        }
                        best = Some(i);
                    }
                },
            }
        }
        i = i + 1;
    }
    match best {
        None => {
            proof {
                assert forall|r: Seq<char>| !is_greatest(tasks@, exclude, state, ab, be, r) by {
                    if is_greatest(tasks@, exclude, state, ab, be, r) {
                        let k = choose|k: int|
                            0 <= k < tasks@.len() && selects(#[trigger] tasks@[k], exclude, state, ab, be)
                                && tasks@[k].position@ == r;
                    }
                }
            }
            None
        },
        Some(b) => {
            let p = tasks[b].position.clone();
            proof {
                let pb = tasks@[b as int].position@;
                assert(is_greatest(tasks@, exclude, state, ab, be, pb));
                let c = choose|r: Seq<char>| is_greatest(tasks@, exclude, state, ab, be, r);
                let k = choose|k: int|
                    0 <= k < tasks@.len() && selects(#[trigger] tasks@[k], exclude, state, ab, be)
                        && tasks@[k].position@ == c;
                lemma_lex_total(pb, c);
            }
            Some(p)
        },
    }
}

/// The least position among the selected tasks.
fn least_position(
    tasks: &[Task],
    exclude: Option<i64>,
    state: Option<State>,
    above: Option<&str>,
    below: Option<&str>,
) -> (r: Option<String>)
    ensures
        opt_string(r) == least_of(tasks@, exclude, state, opt_chars(above), opt_chars(below)),
        r matches Some(p) ==> is_least(tasks@, exclude, state, opt_chars(above), opt_chars(below), p@),
        r is None ==> forall|j: int|
            0 <= j < tasks@.len() ==> !selects(#[trigger] tasks@[j], exclude, state, opt_chars(above), opt_chars(below)),
{
    let ghost ab = opt_chars(above);
    let ghost be = opt_chars(below);
    let mut best: Option<usize> = None;
    let mut i: usize = 0;
    while i < tasks.len()
        invariant
            i <= tasks@.len(),
            ab == opt_chars(above),
            be == opt_chars(below),
            match best {
                Some(b) => b < i && selects(tasks@[b as int], exclude, state, ab, be) && forall|j: int|
                    0 <= j < i && selects(#[trigger] tasks@[j], exclude, state, ab, be) ==> !lex_lt(
                        tasks@[j].position@,
                        tasks@[b as int].position@,
                    ),
                None => forall|j: int| 0 <= j < i ==> !selects(#[trigger] tasks@[j], exclude, state, ab, be),
            },
        decreases tasks.len() - i,
    {
        if selected(&tasks[i], exclude, state, above, below) {
            match best {
                None => {
                    best = Some(i);
                    proof {
                        lemma_lex_irreflexive(tasks@[i as int].position@);
                    }
                },
                Some(b) => {
                    if lex_less(tasks[i].position.as_str(), tasks[b].position.as_str()) {
                        proof {
                            let pb = tasks@[b as int].position@;
                            let pi = tasks@[i as int].position@;
                            lemma_lex_irreflexive(pi);
                            assert forall|j: int|
                                0 <= j < i + 1 && selects(#[trigger] tasks@[j], exclude, state, ab, be) implies !lex_lt(
                                tasks@[j].position@,
                                pi,
                            ) by {
                                if j < i && lex_lt(tasks@[j].position@, pi) {
                                    lemma_lex_transitive(tasks@[j].position@, pi, pb);
                                }
                            }
                        }
                        best = Some(i);
                    }
                },
            }
        }
        i = i + 1;
    }
    match best {
        None => {
            proof {
                assert forall|r: Seq<char>| !is_least(tasks@, exclude, state, ab, be, r) by {
                    if is_least(tasks@, exclude, state, ab, be, r) {
                        let k = choose|k: int|
                            0 <= k < tasks@.len() && selects(#[trigger] tasks@[k], exclude, state, ab, be)
                                && tasks@[k].position@ == r;
                    }
                }
            }
            None
        },
        Some(b) => {
            let p = tasks[b].position.clone();
            proof {
                let pb = tasks@[b as int].position@;
                assert(is_least(tasks@, exclude, state, ab, be, pb));
                let c = choose|r: Seq<char>| is_least(tasks@, exclude, state, ab, be, r);
                let k = choose|k: int|
                    0 <= k < tasks@.len() && selects(#[trigger] tasks@[k], exclude, state, ab, be)
                        && tasks@[k].position@ == c;
                lemma_lex_total(pb, c);
            }
            Some(p)
        },
    }
}

// -- Position queries over the tasks of a backlog --

/// Highest position among the tasks other than `exclude_task_id`.
fn last_position(tasks: &[Task], exclude_task_id: i64) -> (r: Option<String>)
    ensures
        opt_string(r) == greatest_of(tasks@, Some(exclude_task_id), None, None, None),
        r matches Some(p) ==> is_greatest(tasks@, Some(exclude_task_id), None, None, None, p@),
        r is None ==> forall|j: int|
            0 <= j < tasks@.len() ==> !selects(#[trigger] tasks@[j], Some(exclude_task_id), None, None, None),
{
    greatest_position(tasks, Some(exclude_task_id), None, None, None)
}

/// Lowest position among the tasks other than `exclude_task_id`.
fn first_position(tasks: &[Task], exclude_task_id: i64) -> (r: Option<String>)
    ensures
        opt_string(r) == least_of(tasks@, Some(exclude_task_id), None, None, None),
        r matches Some(p) ==> is_least(tasks@, Some(exclude_task_id), None, None, None, p@),
        r is None ==> forall|j: int|
            0 <= j < tasks@.len() ==> !selects(#[trigger] tasks@[j], Some(exclude_task_id), None, None, None),
{
    least_position(tasks, Some(exclude_task_id), None, None, None)
}

/// Lowest position above `pos` among the tasks other than `exclude_task_id`.
fn next_position_after(tasks: &[Task], exclude_task_id: i64, pos: &str) -> (r: Option<String>)
    ensures
        opt_string(r) == least_of(tasks@, Some(exclude_task_id), None, Some(pos@), None),
        r matches Some(p) ==> is_least(tasks@, Some(exclude_task_id), None, Some(pos@), None, p@),
        r is None ==> forall|j: int|
            0 <= j < tasks@.len() ==> !selects(#[trigger] tasks@[j], Some(exclude_task_id), None, Some(pos@), None),
{
    least_position(tasks, Some(exclude_task_id), None, Some(pos), None)
}

/// Highest position below `pos` among the tasks other than `exclude_task_id`.
fn prev_position_before(tasks: &[Task], exclude_task_id: i64, pos: &str) -> (r: Option<String>)
    ensures
        opt_string(r) == greatest_of(tasks@, Some(exclude_task_id), None, None, Some(pos@)),
        r matches Some(p) ==> is_greatest(tasks@, Some(exclude_task_id), None, None, Some(pos@), p@),
        r is None ==> forall|j: int|
            0 <= j < tasks@.len() ==> !selects(#[trigger] tasks@[j], Some(exclude_task_id), None, None, Some(pos@)),
{
    greatest_position(tasks, Some(exclude_task_id), None, None, Some(pos))
}

/// Highest position among the tasks in `state` other than `exclude_task_id`.
fn last_position_in_state(tasks: &[Task], exclude_task_id: i64, state: State) -> (r: Option<String>)
    ensures
        opt_string(r) == greatest_of(tasks@, Some(exclude_task_id), Some(state), None, None),
        r matches Some(p) ==> is_greatest(tasks@, Some(exclude_task_id), Some(state), None, None, p@),
        r is None ==> forall|j: int|
            0 <= j < tasks@.len() ==> !selects(#[trigger] tasks@[j], Some(exclude_task_id), Some(state), None, None),
{
    greatest_position(tasks, Some(exclude_task_id), Some(state), None, None)
}

/// Lowest position among the tasks in `state` other than `exclude_task_id`.
fn first_position_in_state(tasks: &[Task], exclude_task_id: i64, state: State) -> (r: Option<String>)
    ensures
        opt_string(r) == least_of(tasks@, Some(exclude_task_id), Some(state), None, None),
        r matches Some(p) ==> is_least(tasks@, Some(exclude_task_id), Some(state), None, None, p@),
        r is None ==> forall|j: int|
            0 <= j < tasks@.len() ==> !selects(#[trigger] tasks@[j], Some(exclude_task_id), Some(state), None, None),
{
    least_position(tasks, Some(exclude_task_id), Some(state), None, None)
}

// -- Facts about where a new position lands --

proof fn lemma_selected_position(
    tasks: Seq<Task>,
    exclude: Option<i64>,
    state: Option<State>,
    above: Option<Seq<char>>,
    below: Option<Seq<char>>,
    r: Seq<char>,
)
    requires
        positions_ok(tasks),
        is_greatest(tasks, exclude, state, above, below, r) || is_least(tasks, exclude, state, above, below, r),
    ensures
        is_position(r),
{
    if is_greatest(tasks, exclude, state, above, below, r) {
        let k = choose|k: int|
            0 <= k < tasks.len() && selects(#[trigger] tasks[k], exclude, state, above, below) && tasks[k].position@ == r;
    } else {
        let k = choose|k: int|
            0 <= k < tasks.len() && selects(#[trigger] tasks[k], exclude, state, above, below) && tasks[k].position@ == r;
    }
}

/// A position made just above `a` (below the next selected position above
/// it) sorts after every other task at or below `a` and before every other
/// task above `a`.
proof fn lemma_just_after(tasks: Seq<Task>, exclude: Option<i64>, a: Seq<char>, next: Option<Seq<char>>, p: Seq<char>)
    requires
        positions_ok(tasks),
        next matches Some(q) ==> is_least(tasks, exclude, None, Some(a), None, q),
        next is None ==> forall|j: int| 0 <= j < tasks.len() ==> !selects(#[trigger] tasks[j], exclude, None, Some(a), None),
        lex_lt(a, p),
        next matches Some(q) ==> lex_lt(p, q),
    ensures
        forall|i: int|
            0 <= i < tasks.len() && selects(#[trigger] tasks[i], exclude, None, None, None) ==> if lex_lt(
                a,
                tasks[i].position@,
            ) {
                lex_lt(p, tasks[i].position@)
            } else {
                lex_lt(tasks[i].position@, p)
            },
{
    assert forall|i: int|
        0 <= i < tasks.len() && selects(#[trigger] tasks[i], exclude, None, None, None) implies if lex_lt(
            a,
            tasks[i].position@,
        ) {
            lex_lt(p, tasks[i].position@)
        } else {
            lex_lt(tasks[i].position@, p)
        } by {
        let t = tasks[i].position@;
        if lex_lt(a, t) {
            assert(selects(tasks[i], exclude, None, Some(a), None));
            let q = next->0;
            lemma_lex_total(t, q);
            if t != q {
                lemma_lex_transitive(p, q, t);
            }
        } else {
            lemma_lex_total(a, t);
            if t != a {
                lemma_lex_transitive(t, a, p);
            }
        }
    }
}

/// A position made just below `b` (above the previous selected position
/// below it) sorts after every other task below `b` and before every other
/// task at or above `b`.
proof fn lemma_just_before(tasks: Seq<Task>, exclude: Option<i64>, b: Seq<char>, prev: Option<Seq<char>>, p: Seq<char>)
    requires
        positions_ok(tasks),
        prev matches Some(q) ==> is_greatest(tasks, exclude, None, None, Some(b), q),
        prev is None ==> forall|j: int| 0 <= j < tasks.len() ==> !selects(#[trigger] tasks[j], exclude, None, None, Some(b)),
        lex_lt(p, b),
        prev matches Some(q) ==> lex_lt(q, p),
    ensures
        forall|i: int|
            0 <= i < tasks.len() && selects(#[trigger] tasks[i], exclude, None, None, None) ==> if lex_lt(
                tasks[i].position@,
                b,
            ) {
                lex_lt(tasks[i].position@, p)
            } else {
                lex_lt(p, tasks[i].position@)
            },
{
    assert forall|i: int|
        0 <= i < tasks.len() && selects(#[trigger] tasks[i], exclude, None, None, None) implies if lex_lt(
            tasks[i].position@,
            b,
        ) {
            lex_lt(tasks[i].position@, p)
        } else {
            lex_lt(p, tasks[i].position@)
        } by {
        let t = tasks[i].position@;
        if lex_lt(t, b) {
            assert(selects(tasks[i], exclude, None, None, Some(b)));
            let q = prev->0;
            lemma_lex_total(t, q);
            if t != q {
                lemma_lex_transitive(t, q, p);
            }
        } else {
            lemma_lex_total(b, t);
            if t != b {
                lemma_lex_transitive(p, b, t);
            }
        }
    }
}

// -- Creating tasks --

/// What a new task is made from.
pub struct CreateTask<'a> {
    pub title: &'a str,
    pub backlog_id: i64,
    pub state: Option<State>,
    pub description: Option<&'a str>,
}

/// The values a new task is stored with.
pub struct NewTask {
    pub key: String,
    pub backlog_id: i64,
    pub title: String,
    pub description: Option<String>,
    pub state: State,
    pub position: String,
    /// Whether the task starts out archived.
    pub archived: bool,
    /// Whether the task is stamped done now.
    pub done: bool,
}

/// The state a new task starts in: the one asked for, else icebox.
pub open spec fn initial_state(state: Option<State>) -> State {
    match state {
        Some(s) => s,
        None => State::Icebox,
    }
}

/// The position a new task gets: above every task of the backlog.
pub open spec fn new_position_spec(tasks: Seq<Task>) -> Seq<char> {
    between_spec(or_empty(greatest_of(tasks, None, None, None, None)), Seq::empty())
}

/// A task about to be created in a backlog whose tasks are `tasks`: a fresh
/// random key, the requested state (icebox by default), a position after
/// every task of the backlog, not archived, and a done stamp when it starts
/// out done.
pub fn create(params: &CreateTask, tasks: &[Task]) -> (r: NewTask)
    requires
        positions_ok(tasks@),
    ensures
        r.key@.len() == KEY_LENGTH,
        forall|i: int| 0 <= i < r.key@.len() ==> is_key_char(#[trigger] r.key@[i]),
        r.backlog_id == params.backlog_id,
        r.title@ == params.title@,
        opt_string(r.description) == opt_chars(params.description),
        r.state == initial_state(params.state),
        r.position@ == new_position_spec(tasks@),
        is_position(r.position@),
        forall|i: int| 0 <= i < tasks@.len() ==> lex_lt(#[trigger] tasks@[i].position@, r.position@),
        !r.archived,
        r.done == (r.state == State::Done),
{
    let key = generate_key();
    let state = match params.state {
        Some(s) => s,
        None => State::Icebox,
    };
    let last_pos = greatest_position(tasks, None, None, None, None);
    let empty = String::new();
    proof {
        if last_pos is Some {
            lemma_selected_position(tasks@, None, None, None, None, last_pos->0@);
        }
        assert(empty@ =~= Seq::<char>::empty());
    }
    let lower = match &last_pos {
        Some(g) => g.as_str(),
        None => empty.as_str(),
    };
    proof {
        lemma_between(lower@, empty@);
    }
    let new_pos = between(lower, empty.as_str());
    proof {
        assert forall|i: int| 0 <= i < tasks@.len() implies lex_lt(#[trigger] tasks@[i].position@, new_pos@) by {
            assert(selects(tasks@[i], None, None, None, None));
            let g = last_pos->0@;
            let t = tasks@[i].position@;
            lemma_lex_total(t, g);
            if t != g {
                lemma_lex_transitive(t, g, new_pos@);
            }
        }
    }
    let description = match params.description {
        Some(d) => Some(String::from_str(d)),
        None => None,
    };
    NewTask {
        key,
        backlog_id: params.backlog_id,
        title: String::from_str(params.title),
        description,
        state,
        position: new_pos,
        archived: false,
        done: state == State::Done,
    }
}

// -- Moving tasks --

/// Where to move a task: just before one task, just after one, or between
/// two.
pub enum Placement<'a> {
    Before(&'a Task),
    After(&'a Task),
    Between { after: &'a Task, before: &'a Task },
}

/// The tasks a placement is relative to.
pub open spec fn anchors_of(p: Placement) -> Seq<Task> {
    match p {
        Placement::Before(t) => seq![*t],
        Placement::After(t) => seq![*t],
        Placement::Between { after, before } => seq![*after, *before],
    }
}

impl<'a> Placement<'a> {
    /// The tasks this placement is relative to.
    pub fn anchors(&self) -> (r: Vec<&'a Task>)
        ensures
            r@.len() == anchors_of(*self).len(),
            forall|i: int| 0 <= i < r@.len() ==> *(#[trigger] r@[i]) == anchors_of(*self)[i],
    {
        match self {
            Placement::Before(t) => vec![*t],
            Placement::After(t) => vec![*t],
            Placement::Between { after, before } => vec![*after, *before],
        }
    }
}

/// The position a move gives `task`: just after the anchor (below the next
/// other task), just before it (above the previous other task), or between
/// the two anchors.
pub open spec fn move_spec(tasks: Seq<Task>, task: Task, p: Placement) -> Seq<char> {
    match p {
        Placement::After(a) => between_spec(
            a.position@,
            or_empty(least_of(tasks, Some(task.id), None, Some(a.position@), None)),
        ),
        Placement::Before(a) => between_spec(
            or_empty(greatest_of(tasks, Some(task.id), None, None, Some(a.position@))),
            a.position@,
        ),
        Placement::Between { after, before } => between_spec(after.position@, before.position@),
    }
}

/// The first anchor in another state than the task's, if any.
pub open spec fn first_mismatch(anchors: Seq<Task>, state: State, k: int) -> bool {
    &&& 0 <= k < anchors.len()
    &&& anchors[k].state != state
    &&& forall|j: int| 0 <= j < k ==> (#[trigger] anchors[j]).state == state
}

/// Every anchor is in `state`.
pub open spec fn anchors_agree(anchors: Seq<Task>, state: State) -> bool {
    forall|i: int| 0 <= i < anchors.len() ==> (#[trigger] anchors[i]).state == state
}

/// Whether every anchor of `placement` is in the same state as `task`, the
/// condition under which a move is not refused.
pub fn placement_states_agree(task: &Task, placement: &Placement) -> (b: bool)
    ensures
        b == anchors_agree(anchors_of(*placement), task.state),
{
    let anchors = placement.anchors();
    let mut k: usize = 0;
    while k < anchors.len()
        invariant
            anchors@.len() == anchors_of(*placement).len(),
            forall|i: int| 0 <= i < anchors@.len() ==> *(#[trigger] anchors@[i]) == anchors_of(*placement)[i],
            k <= anchors@.len(),
            forall|j: int| 0 <= j < k ==> (#[trigger] anchors_of(*placement)[j]).state == task.state,
        decreases anchors.len() - k,
    {
        if anchors[k].state != task.state {
            return false;
        }
        k = k + 1;
    }
    true
}

/// The new position of `task` when moved as `placement` says, among the
/// tasks of its backlog. Refused when an anchor is in another state than the
/// task; only a move that is not refused needs ordered, well-formed
/// positions.
pub fn move_task(tasks: &[Task], task: &Task, placement: &Placement) -> (r: Result<String, RangerError>)
    requires
        anchors_agree(anchors_of(*placement), task.state) ==> {
            &&& positions_ok(tasks@)
            &&& forall|i: int| 0 <= i < anchors_of(*placement).len() ==> is_position(#[trigger] anchors_of(*placement)[i].position@)
            &&& placement matches Placement::Between { after, before } ==> lex_lt(after.position@, before.position@)
        },
    ensures
        match r {
            Ok(p) => {
                &&& anchors_agree(anchors_of(*placement), task.state)
                &&& p@ == move_spec(tasks@, *task, *placement)
                &&& is_position(p@)
            },
            Err(e) => exists|k: int|
                first_mismatch(anchors_of(*placement), task.state, k) && (e matches RangerError::StateMismatch {
                    task_state,
                    anchor_state,
                } && task_state@ == task.state.name() && anchor_state@ == anchors_of(*placement)[k].state.name()),
        },
        // the moved task lands right next to its anchor among the other tasks
        r matches Ok(p) ==> match *placement {
            Placement::After(a) => forall|i: int|
                0 <= i < tasks@.len() && (#[trigger] tasks@[i]).id != task.id ==> if lex_lt(
                    a.position@,
                    tasks@[i].position@,
                ) {
                    lex_lt(p@, tasks@[i].position@)
                } else {
                    lex_lt(tasks@[i].position@, p@)
                },
            Placement::Before(b) => forall|i: int|
                0 <= i < tasks@.len() && (#[trigger] tasks@[i]).id != task.id ==> if lex_lt(
                    tasks@[i].position@,
                    b.position@,
                ) {
                    lex_lt(tasks@[i].position@, p@)
                } else {
                    lex_lt(p@, tasks@[i].position@)
                },
            Placement::Between { after, before } => lex_lt(after.position@, p@) && lex_lt(
                p@,
                before.position@,
            ),
        },
{
    let anchors = placement.anchors();
    let mut k: usize = 0;
    while k < anchors.len()
        invariant
            anchors@.len() == anchors_of(*placement).len(),
            forall|i: int| 0 <= i < anchors@.len() ==> *(#[trigger] anchors@[i]) == anchors_of(*placement)[i],
            k <= anchors@.len(),
            forall|j: int| 0 <= j < k ==> (#[trigger] anchors_of(*placement)[j]).state == task.state,
        decreases anchors.len() - k,
    {
        let anchor = anchors[k];
        if anchor.state != task.state {
            proof {
                assert(first_mismatch(anchors_of(*placement), task.state, k as int));
            }
            return Err(
                RangerError::StateMismatch {
                    task_state: task.state.to_string(),
                    anchor_state: anchor.state.to_string(),
                },
            );
        }
        k = k + 1;
    }
    let empty = String::new();
    proof {
        assert(empty@ =~= Seq::<char>::empty());
    }
    match placement {
        Placement::After(anchor) => {
            assert(anchors_of(*placement)[0] == **anchor);
            let next = next_position_after(tasks, task.id, anchor.position.as_str());
            proof {
                if next is Some {
                    lemma_selected_position(tasks@, Some(task.id), None, Some(anchor.position@), None, next->0@);
                }
            }
            let upper = match &next {
                Some(n) => n.as_str(),
                None => empty.as_str(),
            };
            proof {
                lemma_between(anchor.position@, upper@);
            }
            let p = between(anchor.position.as_str(), upper);
            proof {
                lemma_just_after(tasks@, Some(task.id), anchor.position@, opt_string(next), p@);
            }
            Ok(p)
        },
        Placement::Before(anchor) => {
            assert(anchors_of(*placement)[0] == **anchor);
            let prev = prev_position_before(tasks, task.id, anchor.position.as_str());
            proof {
                if prev is Some {
                    lemma_selected_position(tasks@, Some(task.id), None, None, Some(anchor.position@), prev->0@);
                }
            }
            let lower = match &prev {
                Some(q) => q.as_str(),
                None => empty.as_str(),
            };
            proof {
                lemma_between(lower@, anchor.position@);
            }
            let p = between(lower, anchor.position.as_str());
            proof {
                lemma_just_before(tasks@, Some(task.id), anchor.position@, opt_string(prev), p@);
            }
            Ok(p)
        },
        Placement::Between { after, before } => {
            assert(anchors_of(*placement)[1] == **before);
            proof {
                lemma_between(after.position@, before.position@);
            }
            Ok(between(after.position.as_str(), before.position.as_str()))
        },
    }
}

// -- Changing state --

/// The position a task gets when its state changes from `old` to `new`:
/// moving up (toward done) it goes to the end of the target state's group,
/// right after that group's last task, or after every task when the group is
/// empty; moving down (toward icebox) it goes to the beginning of the target
/// group, or before every task when the group is empty.
pub open spec fn reorder_spec(tasks: Seq<Task>, id: i64, old: State, new: State) -> Seq<char> {
    if new.spec_rank() > old.spec_rank() {
        match greatest_of(tasks, Some(id), Some(new), None, None) {
            Some(last) => between_spec(last, or_empty(least_of(tasks, Some(id), None, Some(last), None))),
            None => between_spec(or_empty(greatest_of(tasks, Some(id), None, None, None)), Seq::empty()),
        }
    } else {
        match least_of(tasks, Some(id), Some(new), None, None) {
            Some(first) => between_spec(or_empty(greatest_of(tasks, Some(id), None, None, Some(first))), first),
            None => between_spec(Seq::empty(), or_empty(least_of(tasks, Some(id), None, None, None))),
        }
    }
}

/// Reorder a task when its state changes: the new position of task
/// `task_id`, among the tasks of its backlog.
///
/// Moving up (toward done): place at end of target state group.
/// Moving down (toward icebox): place at beginning of target state group.
pub fn reorder(tasks: &[Task], task_id: i64, old_state: State, new_state: State) -> (p: String)
    requires
        positions_ok(tasks@),
    ensures
        p@ == reorder_spec(tasks@, task_id, old_state, new_state),
        is_position(p@),
        new_state.spec_rank() > old_state.spec_rank() ==> forall|i: int|
            0 <= i < tasks@.len() && (#[trigger] tasks@[i]).id != task_id && tasks@[i].state == new_state
                ==> lex_lt(tasks@[i].position@, p@),
        new_state.spec_rank() > old_state.spec_rank() ==> match greatest_of(
            tasks@,
            Some(task_id),
            Some(new_state),
            None,
            None,
        ) {
            Some(last) => forall|i: int|
                0 <= i < tasks@.len() && (#[trigger] tasks@[i]).id != task_id ==> if lex_lt(
                    last,
                    tasks@[i].position@,
                ) {
                    lex_lt(p@, tasks@[i].position@)
                } else {
                    lex_lt(tasks@[i].position@, p@)
                },
            None => forall|i: int|
                0 <= i < tasks@.len() && (#[trigger] tasks@[i]).id != task_id ==> lex_lt(
                    tasks@[i].position@,
                    p@,
                ),
        },
        new_state.spec_rank() <= old_state.spec_rank() ==> forall|i: int|
            0 <= i < tasks@.len() && (#[trigger] tasks@[i]).id != task_id && tasks@[i].state == new_state
                ==> lex_lt(p@, tasks@[i].position@),
        new_state.spec_rank() <= old_state.spec_rank() ==> match least_of(
            tasks@,
            Some(task_id),
            Some(new_state),
            None,
            None,
        ) {
            Some(first) => forall|i: int|
                0 <= i < tasks@.len() && (#[trigger] tasks@[i]).id != task_id ==> if lex_lt(
                    tasks@[i].position@,
                    first,
                ) {
                    lex_lt(tasks@[i].position@, p@)
                } else {
                    lex_lt(p@, tasks@[i].position@)
                },
            None => forall|i: int|
                0 <= i < tasks@.len() && (#[trigger] tasks@[i]).id != task_id ==> lex_lt(
                    p@,
                    tasks@[i].position@,
                ),
        },
{
    let empty = String::new();
    proof {
        assert(empty@ =~= Seq::<char>::empty());
    }
    let moving_up = new_state.rank() > old_state.rank();
    if moving_up {
        let last_in_state = last_position_in_state(tasks, task_id, new_state);
        match last_in_state {
            Some(last) => {
                proof {
                    lemma_selected_position(tasks@, Some(task_id), Some(new_state), None, None, last@);
                }
                let next = next_position_after(tasks, task_id, last.as_str());
                proof {
                    if next is Some {
                        lemma_selected_position(tasks@, Some(task_id), None, Some(last@), None, next->0@);
                    }
                }
                let upper = match &next {
                    Some(n) => n.as_str(),
                    None => empty.as_str(),
                };
                proof {
                    lemma_between(last@, upper@);
                }
                let p = between(last.as_str(), upper);
                proof {
                    lemma_just_after(tasks@, Some(task_id), last@, opt_string(next), p@);
                    assert forall|i: int|
                        0 <= i < tasks@.len() && (#[trigger] tasks@[i]).id != task_id && tasks@[i].state
                            == new_state implies lex_lt(tasks@[i].position@, p@) by {
                        assert(selects(tasks@[i], Some(task_id), Some(new_state), None, None));
                        assert(selects(tasks@[i], Some(task_id), None, None, None));
                    }
                }
                p
            },
            None => {
                let last = last_position(tasks, task_id);
                proof {
                    if last is Some {
                        lemma_selected_position(tasks@, Some(task_id), None, None, None, last->0@);
                    }
                }
                let lower = match &last {
                    Some(l) => l.as_str(),
                    None => empty.as_str(),
                };
                proof {
                    lemma_between(lower@, empty@);
                }
                let p = between(lower, empty.as_str());
                proof {
                    assert forall|i: int|
                        0 <= i < tasks@.len() && (#[trigger] tasks@[i]).id != task_id implies lex_lt(
                            tasks@[i].position@,
                            p@,
                        ) by {
                        assert(selects(tasks@[i], Some(task_id), None, None, None));
                        let g = last->0@;
                        let t = tasks@[i].position@;
                        lemma_lex_total(t, g);
                        if t != g {
                            lemma_lex_transitive(t, g, p@);
                        }
                    }
                }
                p
            },
        }
    } else {
        let first_in_state = first_position_in_state(tasks, task_id, new_state);
        match first_in_state {
            Some(first) => {
                proof {
                    lemma_selected_position(tasks@, Some(task_id), Some(new_state), None, None, first@);
                }
                let prev = prev_position_before(tasks, task_id, first.as_str());
                proof {
                    if prev is Some {
                        lemma_selected_position(tasks@, Some(task_id), None, None, Some(first@), prev->0@);
                    }
                }
                let lower = match &prev {
                    Some(q) => q.as_str(),
                    None => empty.as_str(),
                };
                proof {
                    lemma_between(lower@, first@);
                }
                let p = between(lower, first.as_str());
                proof {
                    lemma_just_before(tasks@, Some(task_id), first@, opt_string(prev), p@);
                    assert forall|i: int|
                        0 <= i < tasks@.len() && (#[trigger] tasks@[i]).id != task_id && tasks@[i].state
                            == new_state implies lex_lt(p@, tasks@[i].position@) by {
                        assert(selects(tasks@[i], Some(task_id), Some(new_state), None, None));
                        assert(selects(tasks@[i], Some(task_id), None, None, None));
                        lemma_lex_total(tasks@[i].position@, first@);
                    }
                }
                p
            },
            None => {
                let first = first_position(tasks, task_id);
                proof {
                    if first is Some {
                        lemma_selected_position(tasks@, Some(task_id), None, None, None, first->0@);
                    }
                }
                let upper = match &first {
                    Some(f) => f.as_str(),
                    None => empty.as_str(),
                };
                proof {
                    lemma_between(empty@, upper@);
                }
                let p = between(empty.as_str(), upper);
                proof {
                    assert forall|i: int|
                        0 <= i < tasks@.len() && (#[trigger] tasks@[i]).id != task_id implies lex_lt(
                            p@,
                            tasks@[i].position@,
                        ) by {
                        assert(selects(tasks@[i], Some(task_id), None, None, None));
                        let f = first->0@;
                        let t = tasks@[i].position@;
                        lemma_lex_total(t, f);
                        if t != f {
                            lemma_lex_transitive(p@, f, t);
                        }
                    }
                }
                p
            },
        }
    }
}

/// What setting a task's state does besides storing it.
pub struct StateChange {
    /// Stamp the task done now (otherwise its done time is cleared).
    pub stamp_done: bool,
    /// Give the task a new position for its new state.
    pub reorder: bool,
}

/// The effects of setting a task's state from `old_state` to `new_state`:
/// the done time is stamped exactly when the new state is done, and the
/// task is reordered only when the state actually changes.
pub fn state_change(old_state: State, new_state: State) -> (c: StateChange)
    ensures
        c.stamp_done == (new_state == State::Done),
        c.reorder == (old_state != new_state),
{
    StateChange { stamp_done: new_state == State::Done, reorder: old_state != new_state }
}

// -- Rebalancing --

/// Fresh, evenly spread positions for the tasks of a backlog, in their
/// current order: pairs of task ID and new position.
pub fn rebalance(tasks: &[Task]) -> (r: Vec<(i64, String)>)
    ensures
        r@.len() == tasks@.len(),
        forall|i: int|
            0 <= i < r@.len() ==> {
                &&& (#[trigger] r@[i]).0 == tasks@[i].id
                &&& r@[i].1@ == fill_spec(Seq::empty(), Seq::empty(), tasks@.len())[i]
                &&& is_position(r@[i].1@)
            },
        forall|i: int, j: int| 0 <= i < j < r@.len() ==> lex_lt(#[trigger] r@[i].1@, #[trigger] r@[j].1@),
{
    let positions = spread(tasks.len());
    let mut r: Vec<(i64, String)> = Vec::new();
    let mut i: usize = 0;
    while i < tasks.len()
        invariant
            i <= tasks@.len(),
            positions@.len() == tasks@.len(),
            positions.deep_view() == fill_spec(Seq::empty(), Seq::empty(), tasks@.len()),
            strictly_sorted(positions.deep_view()),
            forall|k: int| 0 <= k < tasks@.len() ==> is_position(#[trigger] positions@[k]@),
            r@.len() == i,
            forall|k: int| 0 <= k < i ==> (#[trigger] r@[k]).0 == tasks@[k].id && r@[k].1@ == positions@[k]@,
        decreases tasks.len() - i,
    {
        r.push((tasks[i].id, positions[i].clone()));
        i = i + 1;
    }
    proof {
        assert forall|i: int| 0 <= i < r@.len() implies r@[i].1@ == fill_spec(Seq::empty(), Seq::empty(), tasks@.len())[i] by {
            assert(positions.deep_view()[i] == positions@[i]@);
        }
        assert forall|i: int, j: int| 0 <= i < j < r@.len() implies lex_lt(#[trigger] r@[i].1@, #[trigger] r@[j].1@) by {
            assert(positions.deep_view()[i] == positions@[i]@);
            assert(positions.deep_view()[j] == positions@[j]@);
        }
    }
    r
}

// -- Looking tasks up --

/// The task a key prefix names, among the tasks whose keys match it: the
/// only one, or an error when none or several match.
pub fn get_by_key_prefix(matches: Vec<Task>, prefix: &str) -> (r: Result<Task, RangerError>)
    ensures
        matches@.len() == 0 <==> r matches Err(RangerError::KeyNotFound(p)),
        matches@.len() == 1 <==> r is Ok,
        matches@.len() >= 2 <==> r matches Err(RangerError::AmbiguousPrefix(p)),
        r matches Ok(t) ==> t == matches@[0],
        r matches Err(RangerError::KeyNotFound(p)) ==> p@ == prefix@,
        r matches Err(RangerError::AmbiguousPrefix(p)) ==> p@ == prefix@,
{
    if matches.len() == 0 {
        Err(RangerError::KeyNotFound(String::from_str(prefix)))
    } else if matches.len() == 1 {
        let mut m = matches;
        Ok(m.remove(0))
    } else {
        Err(RangerError::AmbiguousPrefix(String::from_str(prefix)))
    }
}

// -- Listing tasks --

/// The columns a task is read from.
pub const TASK_COLUMNS: &'static str = "tasks.id, tasks.key, tasks.backlog_id, tasks.title, tasks.description, tasks.state, tasks.position, tasks.archived, tasks.created_at, tasks.updated_at, tasks.done_at";

/// Which tasks of a backlog to list.
pub struct ListFilter {
    pub state: Option<State>,
    pub include_archived: bool,
    pub tag: Option<String>,
}

impl Default for ListFilter {
    fn default() -> (f: ListFilter)
        ensures
            f.state is None,
            !f.include_archived,
            f.tag is None,
    {
        ListFilter { state: None, include_archived: false, tag: None }
    }
}

/// The SQL text that lists a backlog's tasks under `f`. Its parameters, in
/// order: the tag name when `f` has a tag, the backlog ID, and the state's
/// name when `f` has a state. Done tasks alone are listed by the time they
/// were done, anything else by position; archived tasks only when asked.
pub open spec fn list_query_spec(f: ListFilter) -> Seq<char> {
    "SELECT "@ + TASK_COLUMNS@ + " FROM tasks"@ + (if f.tag is Some {
        " JOIN task_tags tt ON tasks.id = tt.task_id JOIN tags tg ON tt.tag_id = tg.id AND tg.name = ?"@
    } else {
        Seq::empty()
    }) + " WHERE backlog_id = ?"@ + (if f.state is Some {
        " AND state = ?"@
    } else {
        Seq::empty()
    }) + (if f.include_archived {
        Seq::empty()
    } else {
        " AND archived = 0"@
    }) + (if f.state == Some(State::Done) {
        " ORDER BY done_at"@
    } else {
        " ORDER BY position"@
    })
}

/// The query `list` runs for `filter`.
pub fn list_query(filter: &ListFilter) -> (q: String)
    ensures
        q@ == list_query_spec(*filter),
{
    let mut q = String::from_str("SELECT ");
    q.append(TASK_COLUMNS);
    q.append(" FROM tasks");
    let ghost s0 = q@;
    if filter.tag.is_some() {
        q.append(" JOIN task_tags tt ON tasks.id = tt.task_id JOIN tags tg ON tt.tag_id = tg.id AND tg.name = ?");
    } else {
        assert(q@ =~= s0 + Seq::<char>::empty());
    }
    q.append(" WHERE backlog_id = ?");
    let ghost s1 = q@;
    if filter.state.is_some() {
        q.append(" AND state = ?");
    } else {
        assert(q@ =~= s1 + Seq::<char>::empty());
    }
    let ghost s2 = q@;
    if !filter.include_archived {
        q.append(" AND archived = 0");
    } else {
        assert(q@ =~= s2 + Seq::<char>::empty());
    }
    let is_done_only = match filter.state {
        Some(State::Done) => true,
        _ => false,
    };
    if is_done_only {
        q.append(" ORDER BY done_at");
    } else {
        q.append(" ORDER BY position");
    }
    q
}

/// `s` ends with `suffix`.
pub open spec fn ends_with(s: Seq<char>, suffix: Seq<char>) -> bool {
    suffix.len() <= s.len() && s.skip(s.len() - suffix.len()) == suffix
}

/// A task list comes in priority order (by position) for every filter but
/// the one listing done tasks alone, which comes in order of completion.
pub proof fn lemma_list_query_order(f: ListFilter)
    ensures
        f.state != Some(State::Done) ==> ends_with(list_query_spec(f), " ORDER BY position"@),
        ends_with(list_query_spec(f), " ORDER BY done_at"@) <==> f.state == Some(State::Done),
{
    reveal_strlit(" ORDER BY position");
    reveal_strlit(" ORDER BY done_at");
    let q = list_query_spec(f);
    let by_pos = " ORDER BY position"@;
    let by_done = " ORDER BY done_at"@;
    let order = if f.state == Some(State::Done) { by_done } else { by_pos };
    let head = q.take(q.len() - order.len());
    assert(q.len() >= order.len());
    assert(q =~= head + order);
    assert(q.skip(q.len() - order.len()) =~= order);
    if f.state != Some(State::Done) {
        assert(q.last() == 'n');
        if ends_with(q, by_done) {
            assert(q.skip(q.len() - by_done.len()).last() == q.last());
        }
    }
}

/// Which state a list is filtered on changes only the query's parameter,
/// never its text, unless it is done (whose list is ordered by completion).
pub proof fn lemma_list_query_state_is_a_parameter(f: ListFilter, g: ListFilter)
    requires
        f.state is Some,
        g.state is Some,
        f.state != Some(State::Done),
        g.state != Some(State::Done),
        f.tag is Some <==> g.tag is Some,
        f.include_archived == g.include_archived,
    ensures
        list_query_spec(f) == list_query_spec(g),
{
}

/// Leaving archived tasks out adds exactly the condition
/// ` AND archived = 0` in front of the ordering, and changes nothing else.
pub proof fn lemma_list_query_archived(f: ListFilter, g: ListFilter)
    requires
        !f.include_archived,
        g.include_archived,
        f.state == g.state,
        f.tag is Some <==> g.tag is Some,
    ensures
        exists|head: Seq<char>, order: Seq<char>|
            {
                &&& list_query_spec(g) == head + order
                &&& list_query_spec(f) == head + " AND archived = 0"@ + order
                &&& (order == " ORDER BY position"@ || order == " ORDER BY done_at"@)
                &&& ends_with(head, " WHERE backlog_id = ?"@) || ends_with(head, " AND state = ?"@)
            },
{
    let order = if f.state == Some(State::Done) { " ORDER BY done_at"@ } else { " ORDER BY position"@ };
    let q = list_query_spec(g);
    let head = q.take(q.len() - order.len());
    assert(q =~= head + order);
    assert(list_query_spec(f) =~= head + " AND archived = 0"@ + order);
    if f.state is Some {
        let w = " AND state = ?"@;
        assert(head.skip(head.len() - w.len()) =~= w);
    } else {
        let w = " WHERE backlog_id = ?"@;
        assert(head.skip(head.len() - w.len()) =~= w);
    }
}

/// The `LIKE` pattern that matches the keys starting with `prefix`.
pub fn key_pattern(prefix: &str) -> (p: String)
    ensures
        p@ == prefix@ + "%"@,
{
    let mut p = String::from_str(prefix);
    p.append("%");
    p
}

/// Whether some task in `tasks` has ID `id`.
pub open spec fn has_id(tasks: Seq<Task>, id: i64) -> bool {
    exists|k: int| 0 <= k < tasks.len() && tasks[k].id == id
}

/// The tasks of `more` whose IDs are not yet listed, appended in order (a
/// task listed twice is kept once).
pub open spec fn with_unseen(all: Seq<Task>, more: Seq<Task>) -> Seq<Task>
    decreases more.len(),
{
    if more.len() == 0 {
        all
    } else {
        let before = with_unseen(all, more.drop_last());
        if has_id(before, more.last().id) {
            before
        } else {
            before.push(more.last())
        }
    }
}

/// Adds to `all` the tasks of `more` it does not list yet (by ID), keeping
/// their order: how tasks gathered from several backlogs are merged.
pub fn append_unseen(all: &mut Vec<Task>, more: Vec<Task>)
    ensures
        final(all)@ == with_unseen(old(all)@, more@),
{
    let ghost start = all@;
    let ghost orig = more@;
    let mut rest = more;
    let mut i: usize = 0;
    assert(orig.len() == rest.len());
    while rest.len() > 0
        invariant
            orig.len() <= usize::MAX,
            i <= orig.len(),
            rest@ == orig.skip(i as int),
            all@ == with_unseen(start, orig.take(i as int)),
        decreases rest.len(),
    {
        let t = rest.remove(0);
        assert(t == orig[i as int]);
        let mut seen = false;
        let mut j: usize = 0;
        while j < all.len()
            invariant
                j <= all@.len(),
                seen == exists|k: int| 0 <= k < j && all@[k].id == t.id,
            decreases all.len() - j,
        {
            if all[j].id == t.id {
                seen = true;
            }
            j = j + 1;
        }
        proof {
            assert(orig.take(i + 1).drop_last() =~= orig.take(i as int));
            assert(orig.take(i + 1).last() == orig[i as int]);
            assert(rest@ =~= orig.skip(i + 1));
        }
        if !seen {
            all.push(t);
        }
        i = i + 1;
    }
    assert(orig.take(orig.len() as int) =~= orig);
}


/// Every element of the merged list comes from the list it started as or
/// from the tasks added.
proof fn lemma_unseen_from(all: Seq<Task>, more: Seq<Task>, x: Task)
    requires
        with_unseen(all, more).contains(x),
    ensures
        all.contains(x) || more.contains(x),
    decreases more.len(),
{
    if more.len() > 0 {
        let before = with_unseen(all, more.drop_last());
        if before.contains(x) {
            lemma_unseen_from(all, more.drop_last(), x);
            if more.drop_last().contains(x) {
                let k = choose|k: int| 0 <= k < more.drop_last().len() && more.drop_last()[k] == x;
                assert(more[k] == x);
            }
        } else {
            assert(before.push(more.last()).contains(x));
            let k = choose|k: int| 0 <= k < before.len() + 1 && before.push(more.last())[k] == x;
            if k < before.len() {
                assert(before[k] == x);
            }
            assert(more[more.len() - 1] == x);
        }
    }
}

/// Merging keeps the list it started as, unchanged, in front: tasks are
/// only ever appended.
pub proof fn lemma_unseen_keeps_front(all: Seq<Task>, more: Seq<Task>)
    ensures
        with_unseen(all, more).len() >= all.len(),
        with_unseen(all, more).take(all.len() as int) == all,
        with_unseen(all, more).len() <= all.len() + more.len(),
    decreases more.len(),
{
    if more.len() > 0 {
        lemma_unseen_keeps_front(all, more.drop_last());
        let before = with_unseen(all, more.drop_last());
        assert(before.push(more.last()).take(all.len() as int) =~= before.take(all.len() as int));
    }
}

/// Tasks with new, distinct IDs are appended in the order given: the merge
/// is then plain concatenation.
pub proof fn lemma_unseen_distinct_appends(all: Seq<Task>, more: Seq<Task>)
    requires
        forall|k: int| 0 <= k < more.len() ==> !has_id(all, #[trigger] more[k].id),
        forall|j: int, k: int| 0 <= j < k < more.len() ==> more[j].id != more[k].id,
    ensures
        with_unseen(all, more) == all + more,
    decreases more.len(),
{
    if more.len() > 0 {
        let init = more.drop_last();
        assert forall|k: int| 0 <= k < init.len() implies !has_id(all, #[trigger] init[k].id) by {
            assert(init[k] == more[k]);
        }
        lemma_unseen_distinct_appends(all, init);
        let before = all + init;
        let last = more.last();
        if has_id(before, last.id) {
            let k = choose|k: int| 0 <= k < before.len() && before[k].id == last.id;
            if k < all.len() {
                assert(before[k] == all[k]);
                assert(has_id(all, more[more.len() - 1].id));
            } else {
                assert(before[k] == more[k - all.len()]);
            }
        }
        assert(before.push(last) =~= all + more);
    }
}

/// The first task with a given ID is the one kept: a task whose ID appears
/// neither in the list nor earlier among the added tasks ends up in the
/// merged list itself, and every added task's ID is listed.
pub proof fn lemma_unseen_keeps_first(all: Seq<Task>, more: Seq<Task>, k: int)
    requires
        0 <= k < more.len(),
    ensures
        has_id(with_unseen(all, more), more[k].id),
        !has_id(all, more[k].id) && (forall|j: int| 0 <= j < k ==> more[j].id != more[k].id)
            ==> with_unseen(all, more).contains(more[k]),
    decreases more.len(),
{
    let init = more.drop_last();
    let before = with_unseen(all, init);
    let result = with_unseen(all, more);
    assert(result == before || result == before.push(more.last()));
    if k < more.len() - 1 {
        assert(init[k] == more[k]);
        lemma_unseen_keeps_first(all, init, k);
        if has_id(before, more[k].id) {
            let c = choose|c: int| 0 <= c < before.len() && before[c].id == more[k].id;
            if result != before {
                assert(result[c] == before[c]);
            }
        }
        if before.contains(more[k]) && result != before {
            let c = choose|c: int| 0 <= c < before.len() && before[c] == more[k];
            assert(result[c] == before[c]);
        }
    } else {
        if has_id(before, more[k].id) {
            let c = choose|c: int| 0 <= c < before.len() && before[c].id == more[k].id;
            assert(result == before);
            assert(has_id(result, more[k].id));
            if !has_id(all, more[k].id) && (forall|j: int| 0 <= j < k ==> more[j].id != more[k].id) {
                assert(before.contains(before[c]));
                lemma_unseen_from(all, init, before[c]);
                if all.contains(before[c]) {
                    let a = choose|a: int| 0 <= a < all.len() && all[a] == before[c];
                    assert(has_id(all, more[k].id));
                } else {
                    let j = choose|j: int| 0 <= j < init.len() && init[j] == before[c];
                    assert(more[j].id == more[k].id);
                }
            }
        } else {
            assert(result == before.push(more[k]));
            assert(result[before.len() as int] == more[k]);
        }
    }
}

} // verus!
