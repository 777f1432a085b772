//! The data model: task states, edge types, and the records kept per backlog.
use vstd::prelude::*;
use vstd::string::StringExecFns;

use crate::text::concat3;
use crate::timestamp::Timestamp;

verus! {

/// Controls how tasks are ordered within a backlog/state group.
#[derive(Debug, Clone, Copy, PartialEq, Eq, Structural)]
pub enum TaskOrdering {
    /// Lexicographic position strings (legacy).
    Position,
    /// DAG topological sort using `before` edges, with task ID as tiebreaker.
    Dag,
}

impl Default for TaskOrdering {
    /// The default ordering: position strings.
    fn default() -> (o: TaskOrdering)
        ensures
            o == TaskOrdering::Position,
    {
        TaskOrdering::Position
    }
}

/// The lifecycle state of a task.
#[derive(Debug, Clone, Copy, PartialEq, Eq, Structural)]
pub enum State {
    Icebox,
    Queued,
    InProgress,
    Done,
}

impl State {
    /// The canonical spelling of a state.
    pub open spec fn name(self) -> Seq<char> {
        match self {
            State::Icebox => "icebox"@,
            State::Queued => "queued"@,
            State::InProgress => "in_progress"@,
            State::Done => "done"@,
        }
    }

    /// True when `s` spells this state: its canonical name, or `ready`,
    /// the name the committed, priority-ordered state goes by on the board
    /// and on the command line.
    pub open spec fn is_named(self, s: Seq<char>) -> bool {
        self.name() == s || (self == State::Queued && s == "ready"@)
    }

    /// Position in the natural flow icebox → queued → in_progress → done.
    pub open spec fn spec_rank(self) -> u8 {
        match self {
            State::Icebox => 0,
            State::Queued => 1,
            State::InProgress => 2,
            State::Done => 3,
        }
    }

    /// The canonical spelling of the state.
    pub fn as_str(&self) -> (s: &'static str)
        ensures
            s@ == self.name(),
    {
        match self {
            State::Icebox => "icebox",
            State::Queued => "queued",
            State::InProgress => "in_progress",
            State::Done => "done",
        }
    }

    /// Numeric rank following the natural flow: icebox(0) → queued(1) → in_progress(2) → done(3).
    pub fn rank(&self) -> (r: u8)
        ensures
            r == self.spec_rank(),
    {
        match self {
            State::Icebox => 0,
            State::Queued => 1,
            State::InProgress => 2,
            State::Done => 3,
        }
    }

    /// The canonical spelling, as an owned string (what `Display` prints).
    pub fn to_string(&self) -> (s: String)
        ensures
            s@ == self.name(),
    {
        String::from_str(self.as_str())
    }

    /// Parse a state from its canonical spelling, or `ready` for the
    /// queued state.
    pub fn parse(s: &str) -> (r: Result<State, InvalidStateError>)
        ensures
            match r {
                Ok(st) => st.is_named(s@),
                Err(e) => e.0@ == s@ && (forall|st: State| !st.is_named(s@)),
            },
    {
        proof {
            reveal_strlit("icebox");
            reveal_strlit("queued");
            reveal_strlit("ready");
            reveal_strlit("in_progress");
            reveal_strlit("done");
        }
        let cs = String::from_str(s);
        if str_eq(s, "icebox") {
            Ok(State::Icebox)
        } else if str_eq(s, "queued") || str_eq(s, "ready") {
            Ok(State::Queued)
        } else if str_eq(s, "in_progress") {
            Ok(State::InProgress)
        } else if str_eq(s, "done") {
            Ok(State::Done)
        } else {
            proof {
                assert forall|st: State| !st.is_named(s@) by {
                    match st {
                        State::Icebox => {},
                        State::Queued => {},
                        State::InProgress => {},
                        State::Done => {},
                    }
                }
            }
            Err(InvalidStateError(cs))
        }
    }

    /// Equality of states.
    pub fn same_as(&self, other: &State) -> (b: bool)
        ensures
            b == (*self == *other),
    {
        self.rank() == other.rank()
    }
}

/// Text equality of two string slices, character by character.
pub fn str_eq(a: &str, b: &str) -> (r: bool)
    ensures
        r == (a@ == b@),
{
    let av = crate::text::chars_of(a);
    let bv = crate::text::chars_of(b);
    if av.len() != bv.len() {
        return false;
    }
    let mut i: usize = 0;
    while i < av.len()
        invariant
            av@ == a@,
            bv@ == b@,
            av@.len() == bv@.len(),
            i <= av@.len(),
            forall|k: int| 0 <= k < i ==> av@[k] == bv@[k],
        decreases av.len() - i,
    {
        if av[i] != bv[i] {
            return false;
        }
        i = i + 1;
    }
    assert(av@ =~= bv@);
    true
}

/// A string that names no state.
#[derive(Debug)]
pub struct InvalidStateError(pub String);

impl std::str::FromStr for State {
    type Err = InvalidStateError;

    fn from_str(s: &str) -> (r: Result<State, InvalidStateError>)
        ensures
            match r {
                Ok(st) => st.is_named(s@),
                Err(e) => e.0@ == s@ && (forall|st: State| !st.is_named(s@)),
            },
    {
        State::parse(s)
    }
}

impl InvalidStateError {
    /// The human-readable text of the error.
    pub fn to_string(&self) -> (s: String)
        ensures
            s@ == "invalid state: '"@ + self.0@ + "'"@,
    {
        concat3("invalid state: '", self.0.as_str(), "'")
    }
}

/// The kind of a dependency edge between two tasks.
#[derive(Debug, Clone, Copy, PartialEq, Eq, Structural)]
pub enum EdgeType {
    Blocks,
    Before,
}

impl EdgeType {
    /// The canonical spelling of an edge type.
    pub open spec fn name(self) -> Seq<char> {
        match self {
            EdgeType::Blocks => "blocks"@,
            EdgeType::Before => "before"@,
        }
    }

    /// The canonical spelling of the edge type.
    pub fn as_str(&self) -> (s: &'static str)
        ensures
            s@ == self.name(),
    {
        match self {
            EdgeType::Blocks => "blocks",
            EdgeType::Before => "before",
        }
    }

    /// The canonical spelling, as an owned string (what `Display` prints).
    pub fn to_string(&self) -> (s: String)
        ensures
            s@ == self.name(),
    {
        String::from_str(self.as_str())
    }

    /// Parse an edge type from its canonical spelling.
    pub fn parse(s: &str) -> (r: Result<EdgeType, InvalidEdgeTypeError>)
        ensures
            match r {
                Ok(t) => t.name() == s@,
                Err(e) => e.0@ == s@ && (forall|t: EdgeType| t.name() != s@),
            },
    {
        proof {
            reveal_strlit("blocks");
            reveal_strlit("before");
        }
        let cs = String::from_str(s);
        if str_eq(s, "blocks") {
            Ok(EdgeType::Blocks)
        } else if str_eq(s, "before") {
            Ok(EdgeType::Before)
        } else {
            proof {
                assert forall|t: EdgeType| t.name() != s@ by {
                    match t {
                        EdgeType::Blocks => {},
                        EdgeType::Before => {},
                    }
                }
            }
            Err(InvalidEdgeTypeError(cs))
        }
    }

    /// Whether this is a `before` edge.
    pub fn is_before(&self) -> (b: bool)
        ensures
            b == (*self == EdgeType::Before),
    {
        match self {
            EdgeType::Before => true,
            EdgeType::Blocks => false,
        }
    }
}

impl std::str::FromStr for EdgeType {
    type Err = InvalidEdgeTypeError;

    fn from_str(s: &str) -> (r: Result<EdgeType, InvalidEdgeTypeError>)
        ensures
            match r {
                Ok(t) => t.name() == s@,
                Err(e) => e.0@ == s@ && (forall|t: EdgeType| t.name() != s@),
            },
    {
        EdgeType::parse(s)
    }
}

/// A string that names no edge type.
#[derive(Debug)]
pub struct InvalidEdgeTypeError(pub String);

impl InvalidEdgeTypeError {
    /// The human-readable text of the error.
    pub fn to_string(&self) -> (s: String)
        ensures
            s@ == "invalid edge type: '"@ + self.0@ + "'"@,
    {
        concat3("invalid edge type: '", self.0.as_str(), "'")
    }
}

/// A named list of tasks.
#[derive(Debug, Clone)]
pub struct Backlog {
    pub id: i64,
    pub name: String,
    pub created_at: Timestamp,
    pub updated_at: Timestamp,
}

/// A unit of work.
#[derive(Debug, Clone)]
pub struct Task {
    pub id: i64,
    pub key: String,
    pub backlog_id: i64,
    pub title: String,
    pub description: Option<String>,
    pub state: State,
    pub position: String,
    pub archived: bool,
    pub created_at: Timestamp,
    pub updated_at: Timestamp,
    pub done_at: Option<Timestamp>,
}

/// A label attached to tasks.
#[derive(Debug, Clone)]
pub struct Tag {
    pub id: i64,
    pub name: String,
}

/// A note left on a task.
#[derive(Debug, Clone)]
pub struct Comment {
    pub id: i64,
    pub task_id: i64,
    pub body: String,
    pub created_at: Timestamp,
}

/// A directed dependency between two tasks.
#[derive(Debug, Clone)]
pub struct TaskEdge {
    pub id: i64,
    pub from_task_id: i64,
    pub to_task_id: i64,
    pub edge_type: EdgeType,
    pub created_at: Timestamp,
}

/// Each spelling names at most one state, and every state is named by its
/// canonical spelling; so parsing a state's name (or `ready`) gives exactly
/// one state back.
pub proof fn lemma_state_names_distinct(a: State, b: State, s: Seq<char>)
    ensures
        a.is_named(a.name()),
        a.is_named(s) && b.is_named(s) ==> a == b,
{
    reveal_strlit("icebox");
    reveal_strlit("queued");
    reveal_strlit("ready");
    reveal_strlit("in_progress");
    reveal_strlit("done");
    if a != b && a.is_named(s) && b.is_named(s) {
        assert(s.len() > 0);
        assert(a.name().len() != b.name().len() || a.name()[0] != b.name()[0] || s[0] == 'r');
    }
}

/// Distinct edge types have distinct names, so parsing an edge type's name
/// gives that edge type back.
pub proof fn lemma_edge_type_names_distinct(a: EdgeType, b: EdgeType)
    ensures
        a.name() == b.name() ==> a == b,
{
    reveal_strlit("blocks");
    reveal_strlit("before");
    if a != b {
        assert(a.name()[1] != b.name()[1]);
    }
}

} // verus!
