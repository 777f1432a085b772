//! Text decisions of the web board.
use vstd::prelude::*;

use crate::text::{
    byte_len, byte_len_at_most, bytes_prefix, chars_in_bytes, chars_of, is_byte_cut,
    lemma_bytes_prefix, push_char, slice_chars, string_of_chars,
};

use crate::models::{InvalidStateError, State};
use crate::output::{bold_bytes, cut_bytes, key_cuts_ok, shown_key, DISPLAY_LEN};
use crate::text::{concat3, is_prefix};
use vstd::string::StringExecFns;

verus! {

/// The first line of `s`, as `str::lines` yields it: everything before the
/// first `\n`, without a `\r` just before it (all of `s` when there is no
/// line ending).
pub open spec fn first_line(s: Seq<char>) -> Seq<char>
    decreases s.len(),
{
    if s.len() == 0 {
        s
    } else if s[0] == '\n' {
        Seq::empty()
    } else if s.len() >= 2 && s[0] == '\r' && s[1] == '\n' {
        Seq::empty()
    } else {
        seq![s[0]] + first_line(s.drop_first())
    }
}

/// What `truncate_desc` shows: the first line, cut to `max` bytes with an
/// ellipsis when it is longer.
pub open spec fn truncate_spec(s: Seq<char>, max: int) -> Seq<char> {
    let line = first_line(s);
    if byte_len(line) <= max {
        line
    } else {
        bytes_prefix(line, max).push('…')
    }
}

/// Where the first line of `s` ends, scanning from index `i` on.
fn line_end(v: &Vec<char>) -> (k: usize)
    ensures
        k <= v@.len(),
        v@.take(k as int) == first_line(v@),
{
    let mut i: usize = 0;
    assert(v@.take(0) + first_line(v@.skip(0)) =~= first_line(v@)) by {
        assert(v@.skip(0) =~= v@);
    }
    while i < v.len()
        invariant
            i <= v@.len(),
            first_line(v@) == v@.take(i as int) + first_line(v@.skip(i as int)),
        decreases v.len() - i,
    {
        let ghost rest = v@.skip(i as int);
        if v[i] == '\n' {
            assert(first_line(rest) == Seq::<char>::empty());
            assert(first_line(v@) =~= v@.take(i as int));
            return i;
        }
        if v[i] == '\r' && i + 1 < v.len() && v[i + 1] == '\n' {
            assert(rest[1] == v@[i + 1]);
            assert(first_line(rest) == Seq::<char>::empty());
            assert(first_line(v@) =~= v@.take(i as int));
            return i;
        }
        assert(rest.drop_first() =~= v@.skip(i + 1));
        assert(first_line(rest) == seq![v@[i as int]] + first_line(v@.skip(i + 1)));
        assert(v@.take(i + 1) =~= v@.take(i as int) + seq![v@[i as int]]);
        i = i + 1;
    }
    assert(v@.skip(i as int) =~= Seq::<char>::empty());
    assert(first_line(v@) =~= v@.take(i as int));
    i
}

/// The first line is the start of the text up to its first line ending:
/// a prefix of `s` holding no `\n`, followed by the end of `s`, by `\n`, or
/// by `\r\n`.
pub proof fn lemma_first_line(s: Seq<char>)
    ensures
        is_prefix(first_line(s), s),
        forall|i: int| 0 <= i < first_line(s).len() ==> #[trigger] first_line(s)[i] != '\n',
        ({
            let n = first_line(s).len() as int;
            ||| n == s.len()
            ||| s[n] == '\n'
            ||| n + 1 < s.len() && s[n] == '\r' && s[n + 1] == '\n'
        }),
    decreases s.len(),
{
    if s.len() > 0 && s[0] != '\n' && !(s.len() >= 2 && s[0] == '\r' && s[1] == '\n') {
        let rest = s.drop_first();
        lemma_first_line(rest);
        let f = first_line(s);
        assert(f == seq![s[0]] + first_line(rest));
        assert(s.take(f.len() as int) =~= f) by {
            assert(rest.take(first_line(rest).len() as int) =~= first_line(rest));
        }
        assert forall|i: int| 0 <= i < f.len() implies #[trigger] f[i] != '\n' by {
            if i > 0 {
                assert(f[i] == first_line(rest)[i - 1]);
            }
        }
        let n = first_line(rest).len() as int;
        if n < rest.len() {
            assert(s[n + 1] == rest[n]);
            if n + 1 < rest.len() {
                assert(s[n + 2] == rest[n + 1]);
            }
        }
    } else {
        assert(s.take(first_line(s).len() as int) =~= first_line(s));
    }
}

/// A shown description is the first line when it fits in `max` bytes, and
/// otherwise exactly the first line's first `max` bytes followed by `…`.
pub proof fn lemma_truncate_parts(s: Seq<char>, max: int)
    requires
        byte_len(first_line(s)) > max ==> is_byte_cut(first_line(s), max),
    ensures
        byte_len(first_line(s)) <= max ==> truncate_spec(s, max) == first_line(s),
        byte_len(first_line(s)) > max ==> exists|k: int|
            0 <= k < first_line(s).len() && byte_len(first_line(s).take(k)) == max && truncate_spec(s, max)
                == first_line(s).take(k).push('…'),
{
    let line = first_line(s);
    if byte_len(line) > max {
        let k = choose|k: int| 0 <= k <= line.len() && byte_len(line.take(k)) == max;
        lemma_bytes_prefix(line, max, k);
        if k == line.len() {
            assert(line.take(k) =~= line);
        }
    }
}

/// The first line of `s`, cut to at most `max` bytes followed by `…` when
/// it is longer.
pub fn truncate_desc(s: &str, max: usize) -> (r: String)
    requires
        byte_len(first_line(s@)) > max ==> is_byte_cut(first_line(s@), max as int),
    ensures
        r@ == truncate_spec(s@, max as int),
{
    let v = chars_of(s);
    assert(v@.skip(0) =~= v@);
    let end = line_end(&v);
    let line = slice_chars(&v, 0, end);
    assert(line@ =~= first_line(s@));
    if byte_len_at_most(&line, max) {
        return string_of_chars(&line);
    }
    match chars_in_bytes(&line, max) {
        Some(k) => {
            proof {
                lemma_bytes_prefix(line@, max as int, k as int);
            }
            let cut = slice_chars(&line, 0, k);
            assert(cut@ =~= line@.take(k as int));
            let mut r = string_of_chars(&cut);
            push_char(&mut r, '…');
            r
        },
        None => {
            proof {
                let k = choose|k: int| 0 <= k <= line@.len() && byte_len(line@.take(k)) == max;
                assert(byte_len(line@.take(k)) != max);
            }
            String::new()
        },
    }
}

/// The prefix length a key is split at: the known unique prefix length,
/// else the display length.
pub open spec fn split_len(prefix_len: Option<usize>) -> int {
    match prefix_len {
        Some(n) => n as int,
        None => DISPLAY_LEN as int,
    }
}

/// A task's key as the board shows it: the shown part of the key split
/// where its unique prefix ends, as (prefix, rest).
pub fn key_parts(key: &str, prefix_len: Option<usize>) -> (r: (String, String))
    requires
        key_cuts_ok(key@, split_len(prefix_len), true),
    ensures
        r.0@ == bytes_prefix(shown_key(key@), bold_bytes(shown_key(key@), split_len(prefix_len))),
        r.1@ == shown_key(key@).skip(r.0@.len() as int),
        r.0@ + r.1@ == shown_key(key@),
        byte_len(r.0@) == (if split_len(prefix_len) < byte_len(shown_key(key@)) {
            split_len(prefix_len)
        } else {
            byte_len(shown_key(key@)) as int
        }),
{
    let n: usize = match prefix_len {
        Some(n) => n,
        None => DISPLAY_LEN,
    };
    let kv = chars_of(key);
    let show_k = cut_bytes(&kv, DISPLAY_LEN);
    let show = slice_chars(&kv, 0, show_k);
    assert(show@ == shown_key(key@)) by {
        assert(kv@.subrange(0, show_k as int) =~= kv@.take(show_k as int));
    }
    let bold_k = cut_bytes(&show, n);
    let bold = slice_chars(&show, 0, bold_k);
    let rest = slice_chars(&show, bold_k, show.len());
    assert(bold@ == bytes_prefix(show@, bold_bytes(show@, n as int))) by {
        assert(show@.subrange(0, bold_k as int) =~= show@.take(bold_k as int));
    }
    assert(rest@ == show@.skip(bold@.len() as int)) by {
        assert(show@.subrange(bold_k as int, show@.len() as int) =~= show@.skip(bold_k as int));
    }
    assert(bold@ + rest@ =~= show@);
    proof {
        let b = bold_bytes(show@, n as int);
        let k = choose|k: int| 0 <= k <= show@.len() && byte_len(show@.take(k)) == b;
        lemma_bytes_prefix(show@, b, k);
    }
    (string_of_chars(&bold), string_of_chars(&rest))
}

/// Which neighbours a dragged task was dropped between.
#[derive(Debug, Clone, Copy, PartialEq, Eq, Structural)]
pub enum DropAnchors {
    /// Between the task above and the task below.
    Between,
    /// Just before the task below.
    Before,
    /// Just after the task above.
    After,
    /// Nowhere in particular: the state change places it.
    Unplaced,
}

/// How a drag on the board is applied: the state to set first, if any, and
/// the neighbours to place the task next to.
pub struct BoardMove {
    pub new_state: Option<State>,
    pub anchors: DropAnchors,
}

/// Why a drag on the board is refused.
pub enum BoardMoveError {
    /// The requested state is not a state.
    InvalidState(InvalidStateError),
    /// Neither neighbour was given and the state does not change.
    NoAnchor,
}

impl BoardMoveError {
    /// The text the board answers with.
    pub fn message(&self) -> (s: String)
        ensures
            match self {
                BoardMoveError::InvalidState(e) => s@ == "invalid state: '"@ + e.0@ + "'"@,
                BoardMoveError::NoAnchor => s@ == "before or after is required when not changing state"@,
            },
    {
        match self {
            BoardMoveError::InvalidState(e) => e.to_string(),
            BoardMoveError::NoAnchor => String::from_str("before or after is required when not changing state"),
        }
    }
}

/// The anchors a drop names.
pub open spec fn drop_anchors(has_before: bool, has_after: bool) -> DropAnchors {
    if has_before && has_after {
        DropAnchors::Between
    } else if has_before {
        DropAnchors::Before
    } else if has_after {
        DropAnchors::After
    } else {
        DropAnchors::Unplaced
    }
}

/// Which anchors the given neighbours name: both, one, or none.
pub fn anchors_named(has_before: bool, has_after: bool) -> (a: DropAnchors)
    ensures
        a == drop_anchors(has_before, has_after),
{
    if has_before && has_after {
        DropAnchors::Between
    } else if has_before {
        DropAnchors::Before
    } else if has_after {
        DropAnchors::After
    } else {
        DropAnchors::Unplaced
    }
}

/// A drop on the board: `state` is the requested new state's name, and
/// `has_before`/`has_after` whether the task below/above it were given. A
/// state change may come without neighbours; a plain reorder may not.
pub fn board_move(state: Option<&str>, has_before: bool, has_after: bool) -> (r: Result<BoardMove, BoardMoveError>)
    ensures
        match state {
            Some(s) => match r {
                Ok(m) => m.new_state matches Some(st) && st.is_named(s@) && m.anchors == drop_anchors(has_before, has_after),
                Err(e) => e matches BoardMoveError::InvalidState(ie) && ie.0@ == s@ && forall|st: State| !st.is_named(s@),
            },
            None => if !has_before && !has_after {
                r matches Err(BoardMoveError::NoAnchor)
            } else {
                r matches Ok(m) && m.new_state is None && m.anchors == drop_anchors(has_before, has_after)
            },
        },
{
    let anchors = anchors_named(has_before, has_after);
    match state {
        Some(s) => match State::parse(s) {
            Ok(st) => Ok(BoardMove { new_state: Some(st), anchors }),
            Err(e) => Err(BoardMoveError::InvalidState(e)),
        },
        None => {
            if !has_before && !has_after {
                Err(BoardMoveError::NoAnchor)
            } else {
                Ok(BoardMove { new_state: None, anchors })
            }
        },
    }
}

/// The active (in progress and ready) and total task counts of a board.
pub fn board_counts(in_progress: usize, ready: usize, icebox: usize, done: usize) -> (r: (usize, usize))
    requires
        in_progress + ready + icebox + done <= usize::MAX,
    ensures
        r.0 == in_progress + ready,
        r.1 == in_progress + ready + icebox + done,
{
    (in_progress + ready, in_progress + ready + icebox + done)
}

/// The CSS classes of a board column: its state class, plus `drop-zone`
/// when tasks can be dropped there.
pub fn column_classes(state_class: &str, drop_state: Option<&str>) -> (c: String)
    ensures
        c@ == match drop_state {
            Some(_) => state_class@ + " drop-zone"@,
            None => state_class@,
        },
{
    match drop_state {
        Some(_) => {
            let mut c = String::from_str(state_class);
            c.append(" drop-zone");
            c
        },
        None => String::from_str(state_class),
    }
}

/// What `str::to_lowercase` gives for a text.
pub uninterp spec fn lowercase(s: Seq<char>) -> Seq<char>;

/// `str::to_lowercase`: the text in lower case, by Unicode's rules.
#[verifier::external_body]
fn to_lowercase(s: &str) -> (r: String)
    ensures
        r@ == lowercase(s@),
{
    s.to_lowercase()
}

/// The text an empty board column shows.
pub fn empty_column_text(label: &str) -> (t: String)
    ensures
        t@ == "No "@ + lowercase(label@) + " tasks"@,
{
    let lower = to_lowercase(label);
    concat3("No ", lower.as_str(), " tasks")
}

} // verus!
