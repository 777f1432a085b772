//! Lexicographic fractional positions.
//!
//! A position is a string of lowercase letters read as base-26 digits
//! (`a` = 0 … `z` = 25). Ordering tasks by position string lets a task be
//! placed between two others without renumbering anything else.
use vstd::prelude::*;

use crate::text::{chars_of, push_char};

verus! {

// ---------------------------------------------------------------------------
// Model
// ---------------------------------------------------------------------------

/// A position digit is a lowercase ASCII letter.
pub open spec fn is_digit_char(c: char) -> bool {
    'a' <= c && c <= 'z'
}

/// Every character is a position digit.
pub open spec fn all_digit_chars(s: Seq<char>) -> bool {
    forall|i: int| 0 <= i < s.len() ==> is_digit_char(#[trigger] s[i])
}

/// A well-formed position: nonempty, lowercase, and not ending in `a`
/// (a trailing `a` is a trailing zero digit, below which nothing fits).
pub open spec fn is_position(s: Seq<char>) -> bool {
    &&& s.len() > 0
    &&& all_digit_chars(s)
    &&& s.last() != 'a'
}

/// Strict lexicographic order on character sequences (the order of `str`
/// on ASCII text).
pub open spec fn lex_lt(a: Seq<char>, b: Seq<char>) -> bool
    decreases a.len(),
{
    if b.len() == 0 {
        false
    } else if a.len() == 0 {
        true
    } else if a[0] != b[0] {
        a[0] < b[0]
    } else {
        lex_lt(a.drop_first(), b.drop_first())
    }
}

/// Every element is strictly below every later one.
pub open spec fn strictly_sorted(s: Seq<Seq<char>>) -> bool {
    forall|i: int, j: int| 0 <= i < j < s.len() ==> lex_lt(#[trigger] s[i], #[trigger] s[j])
}

/// Numeric value of a digit character.
pub open spec fn dig(c: char) -> int {
    c as int - 97
}

/// Digit character of a numeric value in `0..26`.
pub open spec fn chr(d: int) -> char {
    (d + 97) as char
}

/// First digit of `s`, or `dflt` once `s` is exhausted.
pub open spec fn head_digit(s: Seq<char>, dflt: int) -> int {
    if s.len() > 0 {
        dig(s[0])
    } else {
        dflt
    }
}

/// `s` without its first digit (the empty sequence stays empty).
pub open spec fn rest(s: Seq<char>) -> Seq<char> {
    if s.len() > 0 {
        s.drop_first()
    } else {
        s
    }
}

/// A digit `d` leaves room for a strictly larger midpoint towards `z`.
pub open spec fn has_room(d: int) -> bool {
    (d + 25) / 2 > d
}

/// Position strictly above `a` that stays below anything `a` could be
/// extended to before a `z`: keep the digits that are `y`/`z`, then put the
/// midpoint between the next digit (0 past the end) and `z`.
pub open spec fn above_spec(a: Seq<char>) -> Seq<char>
    decreases a.len(),
{
    let d = head_digit(a, 0);
    if has_room(d) {
        seq![chr((d + 25) / 2)]
    } else {
        seq![chr(d)] + above_spec(rest(a))
    }
}

/// The position `between` computes for the bounds `a` (missing digits are 0)
/// and `b` (missing digits are 25; an empty `b` is no upper bound): copy the
/// shared digits, then at the first differing digit take the midpoint, or,
/// when the two digits are adjacent, keep the lower one and continue above
/// the rest of `a`.
pub open spec fn between_spec(a: Seq<char>, b: Seq<char>) -> Seq<char>
    decreases a.len() + b.len(),
{
    let ca = head_digit(a, 0);
    let cb = head_digit(b, 25);
    if ca == cb {
        seq![chr(ca)] + between_spec(rest(a), rest(b))
    } else if (ca + cb) / 2 > ca {
        seq![chr((ca + cb) / 2)]
    } else {
        seq![chr(ca)] + above_spec(rest(a))
    }
}

/// Result of looking for room among the first `k` digits of `a`, from the
/// right: the first digit with room is raised to its midpoint towards `z`
/// and everything after it dropped; with no room anywhere, `m` is appended.
pub open spec fn after_at(a: Seq<char>, k: int) -> Seq<char>
    decreases k,
{
    if k <= 0 {
        a.push('m')
    } else if has_room(dig(a[k - 1])) {
        a.take(k - 1).push(chr((dig(a[k - 1]) + 25) / 2))
    } else {
        after_at(a, k - 1)
    }
}

/// The position `midpoint` computes above `a` with no upper bound.
pub open spec fn after_spec(a: Seq<char>) -> Seq<char> {
    after_at(a, a.len() as int)
}

/// The position `midpoint` computes for optional bounds.
pub open spec fn midpoint_spec(before: Option<Seq<char>>, after: Option<Seq<char>>) -> Seq<char> {
    match (before, after) {
        (None, None) => seq!['m'],
        (None, Some(b)) => between_spec(Seq::empty(), b),
        (Some(a), None) => after_spec(a),
        (Some(a), Some(b)) => between_spec(a, b),
    }
}

/// The positions `fill` appends for `n` slots strictly between `lo` and `hi`:
/// the midpoint first splits the slots into a lower and an upper half.
pub open spec fn fill_spec(lo: Seq<char>, hi: Seq<char>, n: nat) -> Seq<Seq<char>>
    decreases n,
{
    if n == 0 {
        Seq::empty()
    } else {
        let mid = n / 2;
        let pos = between_spec(lo, hi);
        fill_spec(lo, pos, mid) + seq![pos] + fill_spec(pos, hi, (n - mid - 1) as nat)
    }
}

/// Bounds that `between` accepts: digits only, and `a < b` unless `b` is
/// empty (no upper bound).
pub open spec fn valid_bounds(a: Seq<char>, b: Seq<char>) -> bool {
    &&& all_digit_chars(a)
    &&& all_digit_chars(b)
    &&& b.len() == 0 || lex_lt(a, b)
}

/// The upper bound `b` is one that positions can be placed below: empty
/// (no bound) or not ending in `a`.
pub open spec fn usable_upper(b: Seq<char>) -> bool {
    b.len() == 0 || b.last() != 'a'
}

// ---------------------------------------------------------------------------
// Facts about the lexicographic order
// ---------------------------------------------------------------------------

/// A proper extension is above its prefix.
pub proof fn lemma_lex_prefix(a: Seq<char>, b: Seq<char>)
    requires
        a.len() < b.len(),
        b.take(a.len() as int) == a,
    ensures
        lex_lt(a, b),
    decreases a.len(),
{
    if a.len() > 0 {
        assert(b[0] == b.take(a.len() as int)[0]);
        assert(b.drop_first().take(a.drop_first().len() as int) =~= a.drop_first()) by {
            assert forall|i: int| 0 <= i < a.len() - 1 implies b.drop_first()[i] == a.drop_first()[i] by {
                assert(b.take(a.len() as int)[i + 1] == b[i + 1]);
            }
        }
        lemma_lex_prefix(a.drop_first(), b.drop_first());
    }
}

/// Sequences that agree before index `i` and differ upwards at `i` are ordered.
pub proof fn lemma_lex_at(a: Seq<char>, b: Seq<char>, i: int)
    requires
        0 <= i < a.len(),
        i < b.len(),
        forall|k: int| 0 <= k < i ==> a[k] == b[k],
        a[i] < b[i],
    ensures
        lex_lt(a, b),
    decreases i,
{
    if i > 0 {
        assert(a[0] == b[0]);
        assert forall|k: int| 0 <= k < i - 1 implies a.drop_first()[k] == b.drop_first()[k] by {
            assert(a[k + 1] == b[k + 1]);
        }
        lemma_lex_at(a.drop_first(), b.drop_first(), i - 1);
    }
}

/// The lexicographic order is transitive.
pub proof fn lemma_lex_transitive(a: Seq<char>, b: Seq<char>, c: Seq<char>)
    requires
        lex_lt(a, b),
        lex_lt(b, c),
    ensures
        lex_lt(a, c),
    decreases a.len(),
{
    if a.len() > 0 && a[0] == b[0] && b[0] == c[0] {
        lemma_lex_transitive(a.drop_first(), b.drop_first(), c.drop_first());
    }
}

/// The lexicographic order is irreflexive.
pub proof fn lemma_lex_irreflexive(a: Seq<char>)
    ensures
        !lex_lt(a, a),
    decreases a.len(),
{
    if a.len() > 0 {
        lemma_lex_irreflexive(a.drop_first());
    }
}

/// Any two sequences are equal or ordered one way, and never both ways.
pub proof fn lemma_lex_total(a: Seq<char>, b: Seq<char>)
    ensures
        a == b || lex_lt(a, b) || lex_lt(b, a),
        !(lex_lt(a, b) && lex_lt(b, a)),
    decreases a.len(),
{
    if a.len() == 0 && b.len() == 0 {
        assert(a =~= b);
    } else if a.len() > 0 && b.len() > 0 && a[0] == b[0] {
        lemma_lex_total(a.drop_first(), b.drop_first());
        if a.drop_first() == b.drop_first() {
            assert(a =~= seq![a[0]] + a.drop_first());
            assert(b =~= seq![b[0]] + b.drop_first());
        }
    }
}

/// Whether `s` is a well-formed position.
pub fn is_valid_position(s: &str) -> (b: bool)
    ensures
        b == is_position(s@),
{
    let v = chars_of(s);
    if v.len() == 0 {
        return false;
    }
    let mut i: usize = 0;
    while i < v.len()
        invariant
            v@ == s@,
            i <= v@.len(),
            forall|k: int| 0 <= k < i ==> is_digit_char(#[trigger] v@[k]),
        decreases v.len() - i,
    {
        if !('a' <= v[i] && v[i] <= 'z') {
            return false;
        }
        i = i + 1;
    }
    v[v.len() - 1] != 'a'
}

/// Whether `a` sorts strictly before `b`.
pub fn lex_less(a: &str, b: &str) -> (r: bool)
    ensures
        r == lex_lt(a@, b@),
{
    let av = chars_of(a);
    let bv = chars_of(b);
    let mut i: usize = 0;
    while i < av.len() && i < bv.len() && av[i] == bv[i]
        invariant
            av@ == a@,
            bv@ == b@,
            i <= av@.len(),
            i <= bv@.len(),
            forall|k: int| 0 <= k < i ==> av@[k] == bv@[k],
        decreases av.len() - i,
    {
        i = i + 1;
    }
    if i < av.len() && i < bv.len() {
        if av[i] < bv[i] {
            proof {
                lemma_lex_at(a@, b@, i as int);
            }
            true
        } else {
            proof {
                lemma_lex_at(b@, a@, i as int);
                lemma_lex_total(a@, b@);
            }
            false
        }
    } else if i < bv.len() {
        proof {
            assert(b@.take(a@.len() as int) =~= a@);
            lemma_lex_prefix(a@, b@);
        }
        true
    } else {
        proof {
            if i < av.len() {
                assert(a@.take(b@.len() as int) =~= b@);
                lemma_lex_prefix(b@, a@);
                lemma_lex_total(a@, b@);
            } else {
                assert(a@ =~= b@);
                lemma_lex_irreflexive(a@);
            }
        }
        false
    }
}

/// Prepending the same character preserves the order.
proof fn lemma_lex_cons(c: char, a: Seq<char>, b: Seq<char>)
    ensures
        lex_lt(seq![c] + a, seq![c] + b) == lex_lt(a, b),
{
    assert((seq![c] + a).drop_first() =~= a);
    assert((seq![c] + b).drop_first() =~= b);
}

// ---------------------------------------------------------------------------
// Laws of the position model
// ---------------------------------------------------------------------------

proof fn lemma_digit_roundtrip(c: char)
    requires
        is_digit_char(c),
    ensures
        chr(dig(c)) == c,
        0 <= dig(c) <= 25,
{
}

/// `above_spec(a)` is a position strictly above `a`.
pub proof fn lemma_above(a: Seq<char>)
    requires
        all_digit_chars(a),
    ensures
        is_position(above_spec(a)),
        lex_lt(a, above_spec(a)),
        dig(above_spec(a)[0]) >= head_digit(a, 0),
    decreases a.len(),
{
    let d = head_digit(a, 0);
    let r = above_spec(a);
    if a.len() > 0 {
        lemma_digit_roundtrip(a[0]);
    }
    if has_room(d) {
        assert(r =~= seq![chr((d + 25) / 2)]);
    } else {
        assert(a.len() > 0);
        let t = above_spec(rest(a));
        assert(all_digit_chars(rest(a)));
        lemma_above(rest(a));
        assert(r =~= seq![chr(d)] + t);
        assert(a =~= seq![a[0]] + rest(a));
        lemma_lex_cons(a[0], rest(a), t);
    }
}

/// The law of `between`: for bounds it accepts, the result is a position
/// strictly above `a`, and strictly below `b` when `b` is a nonempty upper
/// bound that does not end in `a`.
pub proof fn lemma_between(a: Seq<char>, b: Seq<char>)
    requires
        valid_bounds(a, b),
    ensures
        is_position(between_spec(a, b)),
        lex_lt(a, between_spec(a, b)),
        b.len() > 0 && b.last() != 'a' ==> lex_lt(between_spec(a, b), b),
    decreases a.len() + b.len(),
{
    let ca = head_digit(a, 0);
    let cb = head_digit(b, 25);
    let r = between_spec(a, b);
    if a.len() > 0 {
        lemma_digit_roundtrip(a[0]);
        assert(a =~= seq![a[0]] + rest(a));
    }
    if b.len() > 0 {
        lemma_digit_roundtrip(b[0]);
        assert(b =~= seq![b[0]] + rest(b));
    }
    if ca == cb {
        let t = between_spec(rest(a), rest(b));
        assert(r =~= seq![chr(ca)] + t);
        if b.len() > 0 && a.len() > 0 {
            assert(a[0] == b[0]);
        }
        assert(valid_bounds(rest(a), rest(b)));
        lemma_between(rest(a), rest(b));
        if a.len() > 0 {
            lemma_lex_cons(a[0], rest(a), t);
        }
        if b.len() > 0 && b.last() != 'a' {
            assert(rest(b).len() > 0) by {
                if a.len() > 0 {
                    assert(lex_lt(a, b) == lex_lt(rest(a), rest(b)));
                }
            }
            assert(rest(b).last() == b.last());
            lemma_lex_cons(b[0], t, rest(b));
        }
    } else {
        if b.len() > 0 && a.len() > 0 {
            assert(a[0] != b[0]);
        }
        assert(ca < cb);
        if (ca + cb) / 2 > ca {
            assert(r =~= seq![chr((ca + cb) / 2)]);
        } else {
            let t = above_spec(rest(a));
            assert(r =~= seq![chr(ca)] + t);
            lemma_above(rest(a));
            if a.len() > 0 {
                lemma_lex_cons(a[0], rest(a), t);
            }
        }
    }
}

/// The law of the unbounded case of `midpoint`: the result is a position
/// strictly above `a`.
pub proof fn lemma_after(a: Seq<char>)
    requires
        all_digit_chars(a),
    ensures
        is_position(after_spec(a)),
        lex_lt(a, after_spec(a)),
{
    lemma_after_at(a, a.len() as int);
}

proof fn lemma_after_at(a: Seq<char>, k: int)
    requires
        all_digit_chars(a),
        0 <= k <= a.len(),
    ensures
        is_position(after_at(a, k)),
        lex_lt(a, after_at(a, k)),
    decreases k,
{
    let r = after_at(a, k);
    if k == 0 {
        assert(r.take(a.len() as int) =~= a);
        lemma_lex_prefix(a, r);
    } else if has_room(dig(a[k - 1])) {
        lemma_digit_roundtrip(a[k - 1]);
        lemma_lex_at(a, r, k - 1);
    } else {
        lemma_after_at(a, k - 1);
    }
}

/// The law of `spread`/`fill`: `n` positions, strictly increasing, all
/// strictly between the bounds.
pub proof fn lemma_fill(lo: Seq<char>, hi: Seq<char>, n: nat)
    requires
        valid_bounds(lo, hi),
        usable_upper(hi),
    ensures
        fill_spec(lo, hi, n).len() == n,
        strictly_sorted(fill_spec(lo, hi, n)),
        forall|i: int|
            0 <= i < n ==> {
                &&& is_position(#[trigger] fill_spec(lo, hi, n)[i])
                &&& lex_lt(lo, fill_spec(lo, hi, n)[i])
                &&& hi.len() > 0 ==> lex_lt(fill_spec(lo, hi, n)[i], hi)
            },
    decreases n,
{
    if n > 0 {
        let mid = n / 2;
        let pos = between_spec(lo, hi);
        lemma_between(lo, hi);
        let left = fill_spec(lo, pos, mid);
        let right = fill_spec(pos, hi, (n - mid - 1) as nat);
        lemma_fill(lo, pos, mid);
        lemma_fill(pos, hi, (n - mid - 1) as nat);
        let s = fill_spec(lo, hi, n);
        assert(s == left + seq![pos] + right);
        assert forall|i: int| 0 <= i < n implies {
            &&& is_position(#[trigger] s[i])
            &&& lex_lt(lo, s[i])
            &&& hi.len() > 0 ==> lex_lt(s[i], hi)
            &&& (i < mid ==> lex_lt(s[i], pos))
            &&& (i > mid ==> lex_lt(pos, s[i]))
        } by {
            if i < mid {
                assert(s[i] == left[i]);
                if hi.len() > 0 {
                    lemma_lex_transitive(s[i], pos, hi);
                }
            } else if i == mid {
                assert(s[i] == pos);
            } else {
                assert(s[i] == right[i - mid - 1]);
                lemma_lex_transitive(lo, pos, s[i]);
            }
        }
        assert forall|i: int, j: int| 0 <= i < j < s.len() implies lex_lt(#[trigger] s[i], #[trigger] s[j]) by {
            if j < mid {
                assert(s[i] == left[i] && s[j] == left[j]);
            } else if i > mid {
                assert(s[i] == right[i - mid - 1] && s[j] == right[j - mid - 1]);
            } else if i == mid {
            } else if j == mid {
            } else {
                lemma_lex_transitive(s[i], pos, s[j]);
            }
        }
    }
}

// ---------------------------------------------------------------------------
// Executable code
// ---------------------------------------------------------------------------

/// The prefix of `s` from index `i` on (empty once `i` is past the end).
pub open spec fn suffix_from(s: Seq<char>, i: int) -> Seq<char> {
    if i < s.len() {
        s.skip(i)
    } else {
        Seq::empty()
    }
}

proof fn lemma_suffix_step(s: Seq<char>, i: int)
    requires
        0 <= i,
    ensures
        rest(suffix_from(s, i)) == suffix_from(s, i + 1),
        suffix_from(s, i).len() > 0 ==> suffix_from(s, i)[0] == s[i],
        suffix_from(s, i).len() == (if i < s.len() { s.len() - i } else { 0 }),
        suffix_from(s, 0) == s,
{
    if i < s.len() {
        assert(s.skip(i).drop_first() =~= suffix_from(s, i + 1));
    }
    assert(s.len() == 0 ==> s =~= Seq::<char>::empty());
    assert(s.skip(0) =~= s);
}

/// The characters of a digit sequence.
pub open spec fn digits_to_chars(v: Seq<u8>) -> Seq<char> {
    Seq::new(v.len(), |i: int| chr(v[i] as int))
}

/// `v` holds the digit values of `s`.
pub open spec fn digits_match(v: Seq<u8>, s: Seq<char>) -> bool {
    &&& v.len() == s.len()
    &&& forall|i: int| 0 <= i < v.len() ==> v[i] as int == dig(#[trigger] s[i])
}

/// Every entry is a digit value below 26.
pub open spec fn small_digits(v: Seq<u8>) -> bool {
    forall|i: int| 0 <= i < v.len() ==> #[trigger] v[i] < 26
}

fn digits_of(s: &str) -> (v: Vec<u8>)
    requires
        all_digit_chars(s@),
    ensures
        digits_match(v@, s@),
        small_digits(v@),
        digits_to_chars(v@) == s@,
{
    let cs = chars_of(s);
    let mut v: Vec<u8> = Vec::new();
    let mut i: usize = 0;
    while i < cs.len()
        invariant
            cs@ == s@,
            all_digit_chars(s@),
            i <= cs.len(),
            v@.len() == i,
            forall|k: int| 0 <= k < i ==> v@[k] as int == dig(#[trigger] s@[k]),
            small_digits(v@),
        decreases cs.len() - i,
    {
        let c = cs[i];
        assert(is_digit_char(s@[i as int]));
        v.push((c as u8) - 97);
        i = i + 1;
    }
    assert(digits_to_chars(v@) =~= s@) by {
        assert forall|k: int| 0 <= k < s@.len() implies digits_to_chars(v@)[k] == s@[k] by {
            assert(is_digit_char(s@[k]));
        }
    }
    v
}

fn string_of_digits(v: &Vec<u8>) -> (s: String)
    requires
        small_digits(v@),
    ensures
        s@ == digits_to_chars(v@),
{
    let mut s = String::new();
    let mut i: usize = 0;
    while i < v.len()
        invariant
            small_digits(v@),
            i <= v.len(),
            s@ == digits_to_chars(v@.take(i as int)),
        decreases v.len() - i,
    {
        let d = v[i];
        assert(d < 26);
        push_char(&mut s, (d + 97) as char);
        assert(digits_to_chars(v@.take(i + 1)) =~= digits_to_chars(v@.take(i as int)).push(chr(d as int)));
        i = i + 1;
    }
    assert(v@.take(v@.len() as int) =~= v@);
    s
}

proof fn lemma_push_digit(v: Seq<u8>, d: u8)
    requires
        d < 26,
    ensures
        digits_to_chars(v.push(d)) == digits_to_chars(v) + seq![chr(d as int)],
{
    assert(digits_to_chars(v.push(d)) =~= digits_to_chars(v) + seq![chr(d as int)]);
}

/// Digits of a position strictly between the bounds `a` and `b`, following
/// `between_spec`.
fn between_digits(a: &str, b: &str) -> (r: String)
    requires
        all_digit_chars(a@),
        all_digit_chars(b@),
    ensures
        r@ == between_spec(a@, b@),
{
    let ad = digits_of(a);
    let bd = digits_of(b);
    let mut result: Vec<u8> = Vec::new();
    let mut i: usize = 0;
    proof {
        lemma_suffix_step(a@, 0);
        lemma_suffix_step(b@, 0);
    }
    loop
        invariant
            digits_match(ad@, a@),
            digits_match(bd@, b@),
            small_digits(ad@),
            small_digits(bd@),
            small_digits(result@),
            all_digit_chars(a@),
            all_digit_chars(b@),
            between_spec(a@, b@) == digits_to_chars(result@) + between_spec(
                suffix_from(a@, i as int),
                suffix_from(b@, i as int),
            ),
        decreases suffix_from(a@, i as int).len() + suffix_from(b@, i as int).len(),
    {
        proof {
            lemma_suffix_step(a@, i as int);
            lemma_suffix_step(b@, i as int);
        }
        let ghost sa = suffix_from(a@, i as int);
        let ghost sb = suffix_from(b@, i as int);
        let ca: u8 = if i < ad.len() {
            ad[i]
        } else {
            0
        };
        let cb: u8 = if i < bd.len() {
            bd[i]
        } else {
            25
        };
        assert(ca as int == head_digit(sa, 0));
        assert(cb as int == head_digit(sb, 25));
        if ca == cb {
            proof {
                lemma_push_digit(result@, ca);
            }
            result.push(ca);
            assert(between_spec(sa, sb) == seq![chr(ca as int)] + between_spec(rest(sa), rest(sb)));
            assert(between_spec(a@, b@) == digits_to_chars(result@) + between_spec(
                suffix_from(a@, i + 1),
                suffix_from(b@, i + 1),
            ));
            i = i + 1;
        } else {
            let mid: u8 = ((ca as u16 + cb as u16) / 2) as u8;
            if mid > ca {
                proof {
                    lemma_push_digit(result@, mid);
                }
                result.push(mid);
                assert(between_spec(sa, sb) == seq![chr(mid as int)]);
                return string_of_digits(&result);
            }
            proof {
                lemma_push_digit(result@, ca);
            }
            result.push(ca);
            assert(between_spec(sa, sb) == seq![chr(ca as int)] + above_spec(rest(sa)));
            assert(i < ad.len() || i < bd.len());
            let mut j: usize = i + 1;
            assert(between_spec(a@, b@) == digits_to_chars(result@) + above_spec(
                suffix_from(a@, j as int),
            ));
            loop
                invariant
                    digits_match(ad@, a@),
                    small_digits(ad@),
                    small_digits(result@),
                    all_digit_chars(a@),
                    between_spec(a@, b@) == digits_to_chars(result@) + above_spec(
                        suffix_from(a@, j as int),
                    ),
                decreases suffix_from(a@, j as int).len(),
            {
                proof {
                    lemma_suffix_step(a@, j as int);
                }
                let ghost sj = suffix_from(a@, j as int);
                let da: u8 = if j < ad.len() {
                    ad[j]
                } else {
                    0
                };
                assert(da as int == head_digit(sj, 0));
                let mid2: u8 = ((da as u16 + 25) / 2) as u8;
                if mid2 > da {
                    proof {
                        lemma_push_digit(result@, mid2);
                    }
                    result.push(mid2);
                    assert(above_spec(sj) == seq![chr(mid2 as int)]);
                    return string_of_digits(&result);
                }
                proof {
                    lemma_push_digit(result@, da);
                }
                result.push(da);
                assert(above_spec(sj) == seq![chr(da as int)] + above_spec(rest(sj)));
                assert(j < ad.len());
                j = j + 1;
            }
        }
    }
}

/// Generate a position string lexicographically between `a` and `b`.
/// Uses base-26 (a-z) characters. Empty `a` means "beginning" (digits
/// default to 0), empty `b` means "end" (digits default to 25/'z').
pub fn between(a: &str, b: &str) -> (r: String)
    requires
        valid_bounds(a@, b@),
    ensures
        r@ == between_spec(a@, b@),
        is_position(r@),
        lex_lt(a@, r@),
        b@.len() > 0 && b@.last() != 'a' ==> lex_lt(r@, b@),
{
    proof {
        lemma_between(a@, b@);
    }
    between_digits(a, b)
}

/// Position strictly above `a` with no upper bound.
fn generate_after(a: &str) -> (r: String)
    requires
        all_digit_chars(a@),
    ensures
        r@ == after_spec(a@),
{
    let mut digits = digits_of(a);
    let ghost orig = a@;
    let mut i: usize = digits.len();
    while i > 0
        invariant
            orig == a@,
            i <= digits@.len(),
            digits_match(digits@, orig),
            small_digits(digits@),
            all_digit_chars(orig),
            after_spec(orig) == after_at(orig, i as int),
        decreases i,
    {
        i = i - 1;
        let d = digits[i];
        assert(d as int == dig(orig[i as int]));
        assert(after_spec(orig) == after_at(orig, i + 1));
        let mid: u8 = ((d as u16 + 25) / 2) as u8;
        if mid > d {
            assert(after_at(orig, i + 1) == orig.take(i as int).push(chr((dig(orig[i as int]) + 25) / 2)));
            digits.set(i, mid);
            digits.truncate(i + 1);
            proof {
                lemma_digit_roundtrip(orig[i as int]);
            }
            assert(digits_to_chars(digits@) =~= orig.take(i as int).push(chr((dig(orig[i as int]) + 25) / 2)));
            return string_of_digits(&digits);
        }
    }
    digits.push(12);
    assert(digits_to_chars(digits@) =~= orig.push('m')) by {
        assert forall|k: int| 0 <= k < orig.len() implies digits_to_chars(digits@)[k] == orig[k] by {
            lemma_digit_roundtrip(orig[k]);
        }
    }
    string_of_digits(&digits)
}

/// Generate a position string between `before` and `after`.
/// Both are optional: None means "the boundary" (start or end).
/// Uses base-26 (a-z) characters with lexicographic ordering.
pub fn midpoint(before: Option<&str>, after: Option<&str>) -> (r: String)
    requires
        before matches Some(a) ==> all_digit_chars(a@),
        after matches Some(b) ==> all_digit_chars(b@),
        before matches Some(a) ==> (after matches Some(b) ==> lex_lt(a@, b@)),
    ensures
        r@ == midpoint_spec(
            match before {
                Some(a) => Some(a@),
                None => None,
            },
            match after {
                Some(b) => Some(b@),
                None => None,
            },
        ),
        is_position(r@),
        before matches Some(a) ==> lex_lt(a@, r@),
        after matches Some(b) ==> (b@.len() > 0 && b@.last() != 'a' ==> lex_lt(r@, b@)),
{
    match (before, after) {
        (None, None) => {
            let mut s = String::new();
            push_char(&mut s, 'm');
            assert(s@ =~= seq!['m']);
            assert(is_position(s@));
            s
        },
        (None, Some(b)) => {
            proof {
                reveal_strlit("");
                assert(""@ =~= Seq::<char>::empty());
                assert(b@.take(0) =~= Seq::<char>::empty());
                if b@.len() > 0 {
                    lemma_lex_prefix(Seq::empty(), b@);
                }
                lemma_between(Seq::empty(), b@);
            }
            generate_between("", b)
        },
        (Some(a), None) => {
            proof {
                lemma_after(a@);
            }
            generate_after(a)
        },
        (Some(a), Some(b)) => {
            proof {
                lemma_between(a@, b@);
            }
            generate_between(a, b)
        },
    }
}

/// Position between `a` and `b` for `midpoint`.
fn generate_between(a: &str, b: &str) -> (r: String)
    requires
        all_digit_chars(a@),
        all_digit_chars(b@),
    ensures
        r@ == between_spec(a@, b@),
{
    between_digits(a, b)
}

/// Generate `n` well-spaced position strings via recursive bisection.
pub fn spread(n: usize) -> (out: Vec<String>)
    ensures
        out.deep_view() == fill_spec(Seq::empty(), Seq::empty(), n as nat),
        out@.len() == n,
        strictly_sorted(out.deep_view()),
        forall|i: int| 0 <= i < n ==> is_position(#[trigger] out@[i]@),
{
    let mut out: Vec<String> = Vec::new();
    proof {
        reveal_strlit("");
        assert(""@ =~= Seq::<char>::empty());
        assert(out.deep_view() =~= Seq::<Seq<char>>::empty());
        lemma_fill(Seq::empty(), Seq::empty(), n as nat);
    }
    fill("", "", n, &mut out);
    assert(out.deep_view() =~= fill_spec(Seq::empty(), Seq::empty(), n as nat));
    assert forall|i: int| 0 <= i < n implies is_position(#[trigger] out@[i]@) by {
        assert(out.deep_view()[i] == out@[i]@);
    }
    out
}

fn fill(lo: &str, hi: &str, n: usize, out: &mut Vec<String>)
    requires
        valid_bounds(lo@, hi@),
        usable_upper(hi@),
    ensures
        final(out).deep_view() == old(out).deep_view() + fill_spec(lo@, hi@, n as nat),
    decreases n,
{
    if n == 0 {
        assert(out.deep_view() =~= old(out).deep_view() + fill_spec(lo@, hi@, 0));
        return;
    }
    let mid = n / 2;
    proof {
        lemma_between(lo@, hi@);
    }
    let pos = between(lo, hi);
    let ghost start = out.deep_view();
    fill(lo, pos.as_str(), mid, out);
    let ghost after_left = out.deep_view();
    out.push(pos.clone());
    assert(out.deep_view() =~= after_left.push(pos@));
    fill(pos.as_str(), hi, n - mid - 1, out);
    assert(out.deep_view() =~= start + fill_spec(lo@, hi@, n as nat));
}

} // verus!
