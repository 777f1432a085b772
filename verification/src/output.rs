//! Display decisions for human-readable output.
use vstd::prelude::*;
use vstd::string::StringExecFns;

use crate::key::{lookup, PrefixLengths};
use crate::models::State;
use crate::text::{
    byte_len, byte_len_at_most, bytes_prefix, chars_in_bytes, chars_of, concat3, is_byte_cut,
    lemma_bytes_prefix, slice_chars, string_of_chars,
};

verus! {

/// When to colorize human-readable output.
#[derive(Debug, Clone, Copy, PartialEq, Eq, Structural)]
pub enum ColorChoice {
    /// Colorize when stdout is a terminal (and `NO_COLOR`/`TERM=dumb` are unset).
    Auto,
    /// Always colorize.
    Always,
    /// Never colorize.
    Never,
}

impl Default for ColorChoice {
    fn default() -> (c: ColorChoice)
        ensures
            c == ColorChoice::Auto,
    {
        ColorChoice::Auto
    }
}

impl ColorChoice {
    /// Parse a choice from its command-line spelling.
    pub fn parse(s: &str) -> (r: Result<ColorChoice, String>)
        ensures
            match r {
                Ok(c) => (c == ColorChoice::Auto && s@ == "auto"@) || (c == ColorChoice::Always
                    && s@ == "always"@) || (c == ColorChoice::Never && s@ == "never"@),
                Err(m) => s@ != "auto"@ && s@ != "always"@ && s@ != "never"@ && m@
                    == "invalid value '"@ + s@ + "' for '--color <WHEN>' [possible values: auto, always, never]"@,
            },
    {
        if crate::models::str_eq(s, "auto") {
            Ok(ColorChoice::Auto)
        } else if crate::models::str_eq(s, "always") {
            Ok(ColorChoice::Always)
        } else if crate::models::str_eq(s, "never") {
            Ok(ColorChoice::Never)
        } else {
            Err(concat3(
                "invalid value '",
                s,
                "' for '--color <WHEN>' [possible values: auto, always, never]",
            ))
        }
    }
}

/// Resolve the color decision: `Always` and `Never` decide by themselves,
/// `Auto` follows what auto-detection found (`auto_detected`).
pub fn init_color(choice: ColorChoice, auto_detected: bool) -> (enabled: bool)
    ensures
        enabled == match choice {
            ColorChoice::Always => true,
            ColorChoice::Never => false,
            ColorChoice::Auto => auto_detected,
        },
{
    match choice {
        ColorChoice::Always => true,
        ColorChoice::Never => false,
        ColorChoice::Auto => auto_detected,
    }
}

/// Auto-detection per the conventions in <https://clig.dev>: a non-empty
/// `NO_COLOR` turns color off, so does `TERM=dumb`; otherwise only a real
/// terminal gets color. `no_color` and `term` are those variables' values,
/// `None` when unset.
pub fn auto_color(no_color: Option<&str>, term: Option<&str>, stdout_is_terminal: bool) -> (enabled: bool)
    ensures
        enabled == (!(no_color matches Some(v) && v@.len() > 0) && !(term matches Some(t) && t@ == "dumb"@)
            && stdout_is_terminal),
{
    proof {
        reveal_strlit("");
    }
    match no_color {
        Some(v) => {
            if !crate::models::str_eq(v, "") {
                assert(v@.len() > 0) by {
                    if v@.len() == 0 {
                        assert(v@ =~= ""@);
                    }
                }
                return false;
            }
        },
        None => {},
    }
    match term {
        Some(t) => {
            if crate::models::str_eq(t, "dumb") {
                return false;
            }
        },
        None => {},
    }
    stdout_is_terminal
}

/// The outcome of a destructive-action confirmation check.
#[derive(Debug, Clone, Copy, PartialEq, Eq, Structural)]
pub enum Confirm {
    /// Proceed with the action.
    Yes,
    /// The user was prompted and declined.
    No,
    /// Not pre-confirmed and not interactive — the caller should require `--yes`.
    NeedsFlag,
}

/// Decide whether a destructive action may proceed before any prompt: with
/// `assume_yes` it may; without a terminal to ask on, `--yes` is needed;
/// otherwise the user must be asked (`None`).
pub fn confirm_without_prompt(assume_yes: bool, interactive: bool) -> (c: Option<Confirm>)
    ensures
        c == (if assume_yes {
            Some(Confirm::Yes)
        } else if !interactive {
            Some(Confirm::NeedsFlag)
        } else {
            None
        }),
{
    if assume_yes {
        Some(Confirm::Yes)
    } else if !interactive {
        Some(Confirm::NeedsFlag)
    } else {
        None
    }
}

/// A character `char::is_whitespace` holds for: one with the Unicode
/// `White_Space` property.
pub open spec fn is_whitespace_char(c: char) -> bool {
    ||| '\u{9}' <= c && c <= '\u{d}'
    ||| c == ' '
    ||| c == '\u{85}'
    ||| c == '\u{a0}'
    ||| c == '\u{1680}'
    ||| '\u{2000}' <= c && c <= '\u{200a}'
    ||| c == '\u{2028}'
    ||| c == '\u{2029}'
    ||| c == '\u{202f}'
    ||| c == '\u{205f}'
    ||| c == '\u{3000}'
}

/// How many whitespace characters `s` starts with.
pub open spec fn leading_ws(s: Seq<char>) -> nat
    decreases s.len(),
{
    if s.len() > 0 && is_whitespace_char(s[0]) {
        1 + leading_ws(s.drop_first())
    } else {
        0
    }
}

/// How many whitespace characters `s` ends with.
pub open spec fn trailing_ws(s: Seq<char>) -> nat
    decreases s.len(),
{
    if s.len() > 0 && is_whitespace_char(s.last()) {
        1 + trailing_ws(s.drop_last())
    } else {
        0
    }
}

/// What `str::trim` leaves of a text: the text without the whitespace it
/// starts with and the whitespace it ends with.
pub open spec fn trimmed(s: Seq<char>) -> Seq<char> {
    let rest = s.skip(leading_ws(s) as int);
    rest.take(rest.len() - trailing_ws(rest))
}

/// `str::trim`: the text without leading and trailing whitespace.
#[verifier::external_body]
pub(crate) fn trim(s: &str) -> (r: &str)
    ensures
        r@ == trimmed(s@),
{
    s.trim()
}

/// ASCII letters in lower case, other characters unchanged.
pub open spec fn ascii_lower(s: Seq<char>) -> Seq<char> {
    s.map_values(|c: char| if 'A' <= c && c <= 'Z' { (c as int + 32) as char } else { c })
}

/// Whether the answer to a confirmation prompt, ignoring surrounding
/// whitespace and ASCII case, is `y` or `yes`.
fn is_yes(line: &str) -> (b: bool)
    ensures
        b == (ascii_lower(trimmed(line@)) == "y"@ || ascii_lower(trimmed(line@)) == "yes"@),
{
    let t = chars_of(trim(line));
    let ghost lower = ascii_lower(t@);
    let mut v: Vec<char> = Vec::new();
    let mut i: usize = 0;
    while i < t.len()
        invariant
            i <= t@.len(),
            lower == ascii_lower(t@),
            v@ =~= lower.take(i as int),
        decreases t.len() - i,
    {
        let c = t[i];
        let l = if 'A' <= c && c <= 'Z' {
            ((c as u8) + 32) as char
        } else {
            c
        };
        v.push(l);
        i = i + 1;
    }
    assert(v@ =~= lower);
    proof {
        reveal_strlit("y");
        reveal_strlit("yes");
    }
    let b = (v.len() == 1 && v[0] == 'y') || (v.len() == 3 && v[0] == 'y' && v[1] == 'e' && v[2] == 's');
    proof {
        if v@ == "y"@ {
            assert(v@[0] == 'y');
        }
        if v@ == "yes"@ {
            assert(v@[0] == 'y' && v@[1] == 'e' && v@[2] == 's');
        }
        if b {
            if v.len() == 1 {
                assert(v@ =~= "y"@);
            } else {
                assert(v@ =~= "yes"@);
            }
        }
    }
    b
}

/// The outcome of a prompt answered with `line`: yes for `y` or `yes`
/// (ignoring surrounding whitespace and ASCII case), no otherwise.
pub fn confirm_answer(line: &str) -> (c: Confirm)
    ensures
        c == (if ascii_lower(trimmed(line@)) == "y"@ || ascii_lower(trimmed(line@)) == "yes"@ {
            Confirm::Yes
        } else {
            Confirm::No
        }),
{
    if is_yes(line) {
        Confirm::Yes
    } else {
        Confirm::No
    }
}

/// The number of key characters to display (matching jj's short change ID style).
pub const DISPLAY_LEN: usize = 8;

/// The shown part of a key: its first `DISPLAY_LEN` bytes.
pub open spec fn shown_key(key: Seq<char>) -> Seq<char> {
    bytes_prefix(key, if byte_len(key) < 8 { byte_len(key) as int } else { 8 })
}

/// The byte cut that starts the dim part of the shown key.
pub open spec fn bold_bytes(show: Seq<char>, prefix_len: int) -> int {
    if byte_len(show) < prefix_len {
        byte_len(show) as int
    } else {
        prefix_len
    }
}

/// What `format_key` prints.
pub open spec fn format_key_spec(key: Seq<char>, prefix_len: int, color: bool) -> Seq<char> {
    let show = shown_key(key);
    if !color {
        show
    } else {
        let bold = bytes_prefix(show, bold_bytes(show, prefix_len));
        let dim = show.skip(bold.len() as int);
        "\x1b[1m"@ + bold + "\x1b[0m\x1b[2m"@ + dim + "\x1b[0m"@
    }
}

/// The byte cuts `format_key` makes fall on character boundaries.
pub open spec fn key_cuts_ok(key: Seq<char>, prefix_len: int, color: bool) -> bool {
    &&& is_byte_cut(key, if byte_len(key) < 8 { byte_len(key) as int } else { 8 })
    &&& color ==> is_byte_cut(shown_key(key), bold_bytes(shown_key(key), prefix_len))
}

/// The characters of `v` in its first `min(n, byte_len(v))` bytes.
pub(crate) fn cut_bytes(v: &Vec<char>, n: usize) -> (k: usize)
    requires
        is_byte_cut(v@, if byte_len(v@) < n { byte_len(v@) as int } else { n as int }),
    ensures
        k <= v@.len(),
        v@.take(k as int) == bytes_prefix(
            v@,
            if byte_len(v@) < n {
                byte_len(v@) as int
            } else {
                n as int
            },
        ),
{
    if byte_len_at_most(v, n) {
        proof {
            assert(v@.take(v@.len() as int) =~= v@);
            lemma_bytes_prefix(v@, byte_len(v@) as int, v@.len() as int);
        }
        v.len()
    } else {
        match chars_in_bytes(v, n) {
            Some(k) => {
                proof {
                    lemma_bytes_prefix(v@, n as int, k as int);
                }
                k
            },
            None => {
                proof {
                    let k = choose|k: int| 0 <= k <= v@.len() && byte_len(v@.take(k)) == n;
                    assert(byte_len(v@.take(k)) != n);
                }
                0
            },
        }
    }
}

/// Format a key for display: unique prefix in bold, remainder (up to DISPLAY_LEN) in dim.
/// When color is disabled, returns the plain prefix (up to DISPLAY_LEN chars).
pub fn format_key(key: &str, prefix_len: usize, color: bool) -> (s: String)
    requires
        key_cuts_ok(key@, prefix_len as int, color),
    ensures
        s@ == format_key_spec(key@, prefix_len as int, color),
{
    let kv = chars_of(key);
    let show_k = cut_bytes(&kv, DISPLAY_LEN);
    let show = slice_chars(&kv, 0, show_k);
    assert(show@ == shown_key(key@)) by {
        assert(kv@.subrange(0, show_k as int) =~= kv@.take(show_k as int));
    }
    if !color {
        return string_of_chars(&show);
    }
    let bold_k = cut_bytes(&show, prefix_len);
    let bold = slice_chars(&show, 0, bold_k);
    let dim = slice_chars(&show, bold_k, show.len());
    assert(bold@ == bytes_prefix(show@, bold_bytes(show@, prefix_len as int))) by {
        assert(show@.subrange(0, bold_k as int) =~= show@.take(bold_k as int));
    }
    assert(dim@ == show@.skip(bold@.len() as int)) by {
        assert(show@.subrange(bold_k as int, show@.len() as int) =~= show@.skip(bold_k as int));
    }
    let bold_s = string_of_chars(&bold);
    let dim_s = string_of_chars(&dim);
    let head = concat3("\x1b[1m", bold_s.as_str(), "\x1b[0m\x1b[2m");
    concat3(head.as_str(), dim_s.as_str(), "\x1b[0m")
}

/// What a shown key looks like: at most its first `DISPLAY_LEN` bytes, as
/// a prefix of the key; in colour, its first `min(prefix_len, shown bytes)`
/// bytes in bold and the rest of the shown key dim; without colour, the
/// shown key alone.
pub proof fn lemma_format_key_parts(key: Seq<char>, prefix_len: int)
    requires
        0 <= prefix_len,
        key_cuts_ok(key, prefix_len, true),
    ensures
        exists|j: int|
            0 <= j <= key.len() && shown_key(key) == key.take(j) && byte_len(key.take(j)) == (if byte_len(key) < 8 {
                byte_len(key) as int
            } else {
                8
            }),
        format_key_spec(key, prefix_len, false) == shown_key(key),
        exists|bold: Seq<char>, dim: Seq<char>|
            {
                &&& format_key_spec(key, prefix_len, true) == "\x1b[1m"@ + bold + "\x1b[0m\x1b[2m"@ + dim + "\x1b[0m"@
                &&& bold + dim == shown_key(key)
                &&& byte_len(bold) == (if prefix_len < byte_len(shown_key(key)) {
                    prefix_len
                } else {
                    byte_len(shown_key(key)) as int
                })
            },
{
    let n = if byte_len(key) < 8 { byte_len(key) as int } else { 8 };
    let j = choose|j: int| 0 <= j <= key.len() && byte_len(key.take(j)) == n;
    lemma_bytes_prefix(key, n, j);
    let show = shown_key(key);
    let b = bold_bytes(show, prefix_len);
    let k = choose|k: int| 0 <= k <= show.len() && byte_len(show.take(k)) == b;
    lemma_bytes_prefix(show, b, k);
    let bold = show.take(k);
    let dim = show.skip(k);
    assert(bold + dim =~= show);
    assert(format_key_spec(key, prefix_len, true) == "\x1b[1m"@ + bold + "\x1b[0m\x1b[2m"@ + dim + "\x1b[0m"@);
}

/// The byte cuts `format_key_from_map` may make fall on character
/// boundaries, whatever prefix length the map holds.
pub open spec fn key_cuts_ok_any(key: Seq<char>, color: bool) -> bool {
    forall|n: int| 0 <= n ==> #[trigger] key_cuts_ok(key, n, color)
}

/// The prefix length a key is shown with: the one known for it, else the
/// whole shown key.
pub open spec fn shown_prefix_len(prefix_len: Option<usize>) -> int {
    match prefix_len {
        Some(n) => n as int,
        None => DISPLAY_LEN as int,
    }
}

/// Format a key with its unique prefix length when one is known; a key
/// without one is shown with all of its first `DISPLAY_LEN` characters as
/// the unique prefix.
pub fn format_key_with(key: &str, prefix_len: Option<usize>, color: bool) -> (s: String)
    requires
        key_cuts_ok(key@, shown_prefix_len(prefix_len), color),
    ensures
        s@ == format_key_spec(key@, shown_prefix_len(prefix_len), color),
{
    match prefix_len {
        Some(n) => format_key(key, n, color),
        None => format_key(key, DISPLAY_LEN, color),
    }
}

/// Shorthand: format a key when you only have a single key and its prefix length.
/// A key missing from `prefix_lengths` is shown with all of its first
/// `DISPLAY_LEN` characters as the unique prefix.
pub fn format_key_from_map(key: &str, prefix_lengths: &PrefixLengths, color: bool) -> (s: String)
    requires
        key_cuts_ok_any(key@, color),
    ensures
        s@ == format_key_spec(key@, shown_prefix_len(lookup(prefix_lengths@, key@)), color),
{
    let known = prefix_lengths.get(key);
    proof {
        assert(key_cuts_ok(key@, shown_prefix_len(known), color));
    }
    format_key_with(key, known, color)
}

/// How a state reads in running text: its adjective, with the committed,
/// priority-ordered state called `ready` and underscores as hyphens.
pub open spec fn state_label_spec(state: State) -> Seq<char> {
    match state {
        State::Icebox => "icebox"@,
        State::Queued => "ready"@,
        State::InProgress => "in-progress"@,
        State::Done => "done"@,
    }
}

/// The adjective a state goes by in running text.
pub fn state_label(state: State) -> (s: &'static str)
    ensures
        s@ == state_label_spec(state),
{
    match state {
        State::Icebox => "icebox",
        State::Queued => "ready",
        State::InProgress => "in-progress",
        State::Done => "done",
    }
}

/// The note for an empty task list: the filters that were applied, and the
/// backlog it was taken from, if any.
pub open spec fn empty_list_note_spec(state: Option<State>, tag: Option<Seq<char>>, backlog: Option<Seq<char>>) -> Seq<char> {
    "No "@ + match state {
        Some(st) => state_label_spec(st) + " "@,
        None => Seq::empty(),
    } + "tasks"@ + match tag {
        Some(t) => " tagged #"@ + t,
        None => Seq::empty(),
    } + match backlog {
        Some(b) => " in backlog '"@ + b + "'"@,
        None => Seq::empty(),
    } + "."@
}

/// What an empty task list says, such as `No ready tasks tagged #bug in
/// backlog 'Empty'.` or, with no filter and no backlog, `No tasks.`.
pub fn empty_list_note(state: Option<State>, tag: Option<&str>, backlog: Option<&str>) -> (s: String)
    ensures
        s@ == empty_list_note_spec(state, crate::ops::task::opt_chars(tag), crate::ops::task::opt_chars(backlog)),
{
    let mut s = String::from_str("No ");
    match state {
        Some(st) => {
            s.append(state_label(st));
            s.append(" ");
        },
        None => {},
    }
    s.append("tasks");
    match tag {
        Some(t) => {
            s.append(" tagged #");
            s.append(t);
        },
        None => {},
    }
    match backlog {
        Some(b) => {
            s.append(" in backlog '");
            s.append(b);
            s.append("'");
        },
        None => {},
    }
    s.append(".");
    proof {
        let st_part = match state {
            Some(st) => state_label_spec(st) + " "@,
            None => Seq::<char>::empty(),
        };
        let tag_part = match crate::ops::task::opt_chars(tag) {
            Some(t) => " tagged #"@ + t,
            None => Seq::<char>::empty(),
        };
        let bl_part = match crate::ops::task::opt_chars(backlog) {
            Some(b) => " in backlog '"@ + b + "'"@,
            None => Seq::<char>::empty(),
        };
        assert(s@ =~= "No "@ + st_part + "tasks"@ + tag_part + bl_part + "."@);
    }
    s
}

/// Format a tag name for display (`#name`), cyan when color is enabled.
pub fn format_tag(name: &str, color: bool) -> (s: String)
    ensures
        s@ == (if color {
            "\x1b[36m#"@ + name@ + "\x1b[0m"@
        } else {
            "#"@ + name@
        }),
{
    if color {
        concat3("\x1b[36m#", name, "\x1b[0m")
    } else {
        let mut s = String::from_str("#");
        s.append(name);
        s
    }
}

/// A tag as `format_tag` shows it.
pub open spec fn tag_text(name: Seq<char>, color: bool) -> Seq<char> {
    if color {
        "\x1b[36m#"@ + name + "\x1b[0m"@
    } else {
        "#"@ + name
    }
}

/// The tags of a task after its title: each shown tag preceded by a space.
pub open spec fn tag_suffix_spec(names: Seq<Seq<char>>, color: bool) -> Seq<char>
    decreases names.len(),
{
    if names.len() == 0 {
        Seq::empty()
    } else {
        tag_suffix_spec(names.drop_last(), color) + " "@ + tag_text(names.last(), color)
    }
}

/// The text after a task's title that lists its tags (empty without tags).
pub fn tag_suffix(names: &[String], color: bool) -> (s: String)
    ensures
        s@ == tag_suffix_spec(names.deep_view(), color),
{
    let mut s = String::new();
    let mut i: usize = 0;
    proof {
        assert(names.deep_view().take(0) =~= Seq::<Seq<char>>::empty());
    }
    while i < names.len()
        invariant
            i <= names@.len(),
            s@ == tag_suffix_spec(names.deep_view().take(i as int), color),
        decreases names.len() - i,
    {
        let t = format_tag(names[i].as_str(), color);
        proof {
            let ns = names.deep_view();
            assert(ns.take(i + 1).drop_last() =~= ns.take(i as int));
            assert(ns.take(i + 1).last() == names@[i as int]@);
        }
        s.append(" ");
        s.append(t.as_str());
        i = i + 1;
    }
    proof {
        assert(names.deep_view().take(names@.len() as int) =~= names.deep_view());
    }
    s
}

/// One task as the task list shows it: its shown key, its state in
/// brackets, and its title.
pub fn task_line(shown_key: &str, state: State, title: &str) -> (s: String)
    ensures
        s@ == shown_key@ + " ["@ + state.name() + "] "@ + title@,
{
    let mut s = concat3(shown_key, " [", state.as_str());
    s.append("] ");
    s.append(title);
    s
}

} // verus!
