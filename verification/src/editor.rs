//! The text a task is edited as in `$EDITOR`: its title on the first line,
//! its description below, and how the edited text is read back.
use vstd::prelude::*;
use vstd::string::StringExecFns;

use crate::key::char_rows;
use crate::output::{trim, trimmed};
use crate::text::{chars_of, string_of_chars};

verus! {

/// The lines of `text`, split at each newline; a text ending in a newline
/// ends with an empty line.
pub open spec fn lines_of(text: Seq<char>) -> Seq<Seq<char>>
    decreases text.len(),
{
    if text.len() == 0 {
        seq![Seq::<char>::empty()]
    } else {
        let init = lines_of(text.drop_last());
        if text.last() == '\n' {
            init.push(Seq::<char>::empty())
        } else {
            init.update(init.len() - 1, init.last().push(text.last()))
        }
    }
}

proof fn lemma_lines_nonempty(text: Seq<char>)
    ensures
        lines_of(text).len() >= 1,
    decreases text.len(),
{
    if text.len() > 0 {
        lemma_lines_nonempty(text.drop_last());
    }
}

/// The lines of a text, each as its characters.
fn split_lines(text: &str) -> (r: Vec<Vec<char>>)
    ensures
        char_rows(r@) == lines_of(text@),
{
    let cs = chars_of(text);
    let mut lines: Vec<Vec<char>> = Vec::new();
    let mut cur: Vec<char> = Vec::new();
    let mut i: usize = 0;
    while i < cs.len()
        invariant
            i <= cs@.len(),
            cs@ == text@,
            char_rows(lines@).push(cur@) == lines_of(cs@.take(i as int)),
        decreases cs.len() - i,
    {
        let c = cs[i];
        let ghost before = lines_of(cs@.take(i as int));
        proof {
            lemma_lines_nonempty(cs@.take(i as int));
            assert(cs@.take(i + 1).drop_last() =~= cs@.take(i as int));
            assert(cs@.take(i + 1).last() == c);
        }
        if c == '\n' {
            let ghost old_rows = char_rows(lines@);
            let ghost old_cur = cur@;
            lines.push(cur);
            cur = Vec::new();
            proof {
                assert(char_rows(lines@) =~= old_rows.push(old_cur));
                assert(char_rows(lines@).push(cur@) =~= before.push(Seq::<char>::empty()));
            }
        } else {
            let ghost old_cur = cur@;
            cur.push(c);
            proof {
                assert(char_rows(lines@).push(cur@) =~= before.update(before.len() - 1, old_cur.push(c)));
            }
        }
        i = i + 1;
    }
    proof {
        assert(cs@.take(cs@.len() as int) =~= cs@);
    }
    let ghost rows = char_rows(lines@);
    let ghost last = cur@;
    lines.push(cur);
    proof {
        assert(char_rows(lines@) =~= rows.push(last));
    }
    lines
}

/// A line holding nothing but whitespace.
pub open spec fn is_blank(line: Seq<char>) -> bool {
    trimmed(line).len() == 0
}

/// The lines from `from` up to `to` are all blank.
pub open spec fn all_blank(lines: Seq<Seq<char>>, from: int, to: int) -> bool {
    forall|j: int| from <= j < to ==> is_blank(#[trigger] lines[j])
}

/// The lines joined with newlines between them.
pub open spec fn join_lines(lines: Seq<Seq<char>>) -> Seq<char>
    decreases lines.len(),
{
    if lines.len() == 0 {
        Seq::empty()
    } else if lines.len() == 1 {
        lines[0]
    } else {
        join_lines(lines.drop_last()) + seq!['\n'] + lines.last()
    }
}

/// What an edited text sets: the title is the first non-blank line (line
/// `k`), trimmed; the description is the lines after it with the blank lines
/// at either end dropped (lines `lo` up to `hi`), blank lines inside kept.
pub open spec fn edited_fields(lines: Seq<Seq<char>>, title: Seq<char>, description: Seq<char>) -> bool {
    exists|k: int, lo: int, hi: int|
        #![trigger trimmed(lines[k]), join_lines(lines.subrange(lo, hi))]
        {
            &&& 0 <= k < lo <= hi <= lines.len()
            &&& all_blank(lines, 0, k)
            &&& !is_blank(lines[k])
            &&& all_blank(lines, k + 1, lo)
            &&& all_blank(lines, hi, lines.len() as int)
            &&& lo < hi ==> !is_blank(lines[lo]) && !is_blank(lines[hi - 1])
            &&& title == trimmed(lines[k])
            &&& description == join_lines(lines.subrange(lo, hi))
        }
}

fn line_is_blank(line: &Vec<char>) -> (b: bool)
    ensures
        b == is_blank(line@),
{
    let s = string_of_chars(line);
    let t = chars_of(trim(s.as_str()));
    t.len() == 0
}

/// The text a task is edited as: its title, a blank line, then its
/// description.
pub fn editor_text(title: &str, description: &str) -> (s: String)
    ensures
        s@ == title@ + "\n\n"@ + description@ + "\n"@,
{
    let mut s = String::from_str(title);
    s.append("\n\n");
    s.append(description);
    s.append("\n");
    s
}

/// Read back an edited text: `None` when every line is blank (the task is
/// left alone), else the new title and description.
pub fn parse_edited(text: &str) -> (r: Option<(String, String)>)
    ensures
        match r {
            None => all_blank(lines_of(text@), 0, lines_of(text@).len() as int),
            Some((title, description)) => edited_fields(lines_of(text@), title@, description@),
        },
{
    let lines = split_lines(text);
    let ghost ls = lines_of(text@);
    let n = lines.len();
    let mut blank: Vec<bool> = Vec::new();
    let mut j: usize = 0;
    while j < n
        invariant
            n == lines@.len(),
            char_rows(lines@) == ls,
            j <= n,
            blank@.len() == j,
            forall|q: int| 0 <= q < j ==> #[trigger] blank@[q] == is_blank(ls[q]),
        decreases n - j,
    {
        assert(lines@[j as int]@ == ls[j as int]);
        blank.push(line_is_blank(&lines[j]));
        j = j + 1;
    }
    let mut k: usize = 0;
    while k < n && blank[k]
        invariant
            n == lines@.len() == blank@.len(),
            char_rows(lines@) == ls,
            forall|q: int| 0 <= q < n ==> #[trigger] blank@[q] == is_blank(ls[q]),
            k <= n,
            all_blank(ls, 0, k as int),
        decreases n - k,
    {
        k = k + 1;
    }
    if k == n {
        return None;
    }
    let title_line = string_of_chars(&lines[k]);
    let title = String::from_str(trim(title_line.as_str()));
    let mut hi: usize = n;
    while hi > k + 1 && blank[hi - 1]
        invariant
            n == blank@.len(),
            forall|q: int| 0 <= q < n ==> #[trigger] blank@[q] == is_blank(ls[q]),
            k < n,
            k + 1 <= hi <= n,
            all_blank(ls, hi as int, n as int),
        decreases hi,
    {
        hi = hi - 1;
    }
    let mut lo: usize = k + 1;
    while lo < hi && blank[lo]
        invariant
            n == blank@.len(),
            forall|q: int| 0 <= q < n ==> #[trigger] blank@[q] == is_blank(ls[q]),
            k + 1 <= lo <= hi <= n,
            all_blank(ls, k + 1, lo as int),
        decreases hi - lo,
    {
        lo = lo + 1;
    }
    let mut description = String::new();
    let mut p: usize = lo;
    proof {
        reveal_strlit("\n");
        assert(description@ =~= join_lines(ls.subrange(lo as int, lo as int)));
    }
    while p < hi
        invariant
            n == lines@.len(),
            char_rows(lines@) == ls,
            lo <= p <= hi <= n,
            description@ == join_lines(ls.subrange(lo as int, p as int)),
        decreases hi - p,
    {
        proof {
            reveal_strlit("\n");
            assert(ls.subrange(lo as int, p + 1).drop_last() =~= ls.subrange(lo as int, p as int));
            assert(lines@[p as int]@ == ls[p as int]);
        }
        if p > lo {
            description.append("\n");
        }
        let piece = string_of_chars(&lines[p]);
        description.append(piece.as_str());
        proof {
            if p == lo {
                assert(description@ =~= ls.subrange(lo as int, p + 1)[0]);
            } else {
                assert(description@ =~= join_lines(ls.subrange(lo as int, p as int)) + seq!['\n'] + ls[p as int]);
            }
        }
        p = p + 1;
    }
    proof {
        assert(lines@[k as int]@ == ls[k as int]);
        if lo < hi {
            assert(!is_blank(ls[hi - 1]));
        }
        assert(title@ == trimmed(ls[k as int]));
        assert(description@ == join_lines(ls.subrange(lo as int, hi as int)));
    }
    Some((title, description))
}

} // verus!
