//! Small string helpers shared by the modules.
use vstd::prelude::*;
use vstd::string::StringExecFns;

verus! {

/// Appends one character to a string (`String::push`).
#[verifier::external_body]
pub fn push_char(s: &mut String, c: char)
    ensures
        final(s)@ == old(s)@.push(c),
{
    s.push(c);
}

/// The characters of a string slice, in order.
pub fn chars_of(s: &str) -> (v: Vec<char>)
    ensures
        v@ == s@,
{
    let mut v: Vec<char> = Vec::new();
    for c in it: s.chars()
        invariant
            v@ == it.seq().take(it.index() as int),
    {
        v.push(c);
    }
    v
}

/// The string made of `a`, `b` and `c` in that order.
pub fn concat3(a: &str, b: &str, c: &str) -> (s: String)
    ensures
        s@ == a@ + b@ + c@,
{
    let mut s = String::from_str(a);
    s.append(b);
    s.append(c);
    s
}

/// `p` is a prefix of `s`.
pub open spec fn is_prefix(p: Seq<char>, s: Seq<char>) -> bool {
    p.len() <= s.len() && s.take(p.len() as int) == p
}

/// Whether `p` is a prefix of `s`, on character vectors.
pub fn vec_starts_with(s: &Vec<char>, p: &Vec<char>) -> (b: bool)
    ensures
        b == is_prefix(p@, s@),
{
    if p.len() > s.len() {
        return false;
    }
    let mut i: usize = 0;
    while i < p.len()
        invariant
            p@.len() <= s@.len(),
            i <= p@.len(),
            forall|k: int| 0 <= k < i ==> s@[k] == p@[k],
        decreases p.len() - i,
    {
        if s[i] != p[i] {
            assert(s@.take(p@.len() as int)[i as int] != p@[i as int]);
            return false;
        }
        i = i + 1;
    }
    assert(s@.take(p@.len() as int) =~= p@);
    true
}

/// Number of bytes in the UTF-8 encoding of `c`.
pub open spec fn utf8_width(c: char) -> nat {
    if (c as int) < 0x80 {
        1
    } else if (c as int) < 0x800 {
        2
    } else if (c as int) < 0x10000 {
        3
    } else {
        4
    }
}

/// Number of bytes in the UTF-8 encoding of `s` (what `str::len` returns).
pub open spec fn byte_len(s: Seq<char>) -> nat
    decreases s.len(),
{
    if s.len() == 0 {
        0
    } else {
        byte_len(s.drop_last()) + utf8_width(s.last())
    }
}

fn width_of(c: char) -> (w: usize)
    ensures
        w == utf8_width(c),
{
    if (c as u32) < 0x80 {
        1
    } else if (c as u32) < 0x800 {
        2
    } else if (c as u32) < 0x10000 {
        3
    } else {
        4
    }
}

proof fn lemma_byte_len_take(s: Seq<char>, k: int)
    requires
        0 <= k < s.len(),
    ensures
        byte_len(s.take(k + 1)) == byte_len(s.take(k)) + utf8_width(s[k]),
{
    assert(s.take(k + 1).drop_last() =~= s.take(k));
}

/// Byte lengths of prefixes grow with the prefix.
pub proof fn lemma_byte_len_monotonic(s: Seq<char>, j: int, k: int)
    requires
        0 <= j < k <= s.len(),
    ensures
        byte_len(s.take(j)) < byte_len(s.take(k)),
    decreases k - j,
{
    lemma_byte_len_take(s, k - 1);
    if j < k - 1 {
        lemma_byte_len_monotonic(s, j, k - 1);
    }
}

/// The number of leading characters of `s` whose encoding is exactly `n`
/// bytes long, if a character boundary lies at byte `n`.
pub fn chars_in_bytes(s: &Vec<char>, n: usize) -> (r: Option<usize>)
    ensures
        match r {
            Some(k) => k <= s@.len() && byte_len(s@.take(k as int)) == n,
            None => forall|k: int| 0 <= k <= s@.len() ==> byte_len(#[trigger] s@.take(k)) != n,
        },
{
    let mut k: usize = 0;
    let mut total: usize = 0;
    assert(s@.take(0) =~= Seq::<char>::empty());
    while k < s.len() && total < n
        invariant
            k <= s@.len(),
            total == byte_len(s@.take(k as int)),
            total <= n,
            forall|j: int| 0 <= j < k ==> byte_len(#[trigger] s@.take(j)) < n,
        decreases s.len() - k,
    {
        proof {
            lemma_byte_len_take(s@, k as int);
        }
        let w = width_of(s[k]);
        if w > n - total {
            proof {
                assert forall|j: int| 0 <= j <= s@.len() implies byte_len(#[trigger] s@.take(j)) != n by {
                    if j > k + 1 {
                        lemma_byte_len_monotonic(s@, k as int + 1, j);
                    }
                }
            }
            return None;
        }
        total = total + w;
        k = k + 1;
    }
    if total == n {
        Some(k)
    } else {
        proof {
            assert forall|j: int| 0 <= j <= s@.len() implies byte_len(#[trigger] s@.take(j)) != n by {
                if j > k {
                    lemma_byte_len_monotonic(s@, k as int, j);
                }
            }
        }
        None
    }
}

/// Byte index `n` falls on a character boundary of `s`.
pub open spec fn is_byte_cut(s: Seq<char>, n: int) -> bool {
    exists|k: int| 0 <= k <= s.len() && byte_len(s.take(k)) == n
}

/// The characters of `s` in its first `n` bytes (what `&s[..n]` holds).
pub open spec fn bytes_prefix(s: Seq<char>, n: int) -> Seq<char> {
    s.take(choose|k: int| 0 <= k <= s.len() && byte_len(s.take(k)) == n)
}

/// The prefix found by `chars_in_bytes` is the one `bytes_prefix` names.
pub proof fn lemma_bytes_prefix(s: Seq<char>, n: int, k: int)
    requires
        0 <= k <= s.len(),
        byte_len(s.take(k)) == n,
    ensures
        is_byte_cut(s, n),
        bytes_prefix(s, n) == s.take(k),
{
    let c = choose|j: int| 0 <= j <= s.len() && byte_len(s.take(j)) == n;
    if c < k {
        lemma_byte_len_monotonic(s, c, k);
    } else if c > k {
        lemma_byte_len_monotonic(s, k, c);
    }
}

/// Whether `s` encodes to at most `n` bytes.
pub fn byte_len_at_most(s: &Vec<char>, n: usize) -> (b: bool)
    ensures
        b == (byte_len(s@) <= n),
{
    let mut k: usize = 0;
    let mut total: usize = 0;
    assert(s@.take(0) =~= Seq::<char>::empty());
    while k < s.len()
        invariant
            k <= s@.len(),
            total == byte_len(s@.take(k as int)),
            total <= n,
        decreases s.len() - k,
    {
        proof {
            lemma_byte_len_take(s@, k as int);
        }
        let w = width_of(s[k]);
        if w > n - total {
            proof {
                if k + 1 < s@.len() {
                    lemma_byte_len_monotonic(s@, k as int + 1, s@.len() as int);
                }
                assert(s@.take(s@.len() as int) =~= s@);
            }
            return false;
        }
        total = total + w;
        k = k + 1;
    }
    assert(s@.take(s@.len() as int) =~= s@);
    true
}

/// The string holding the characters of `v`.
pub fn string_of_chars(v: &Vec<char>) -> (s: String)
    ensures
        s@ == v@,
{
    let mut s = String::new();
    let mut i: usize = 0;
    while i < v.len()
        invariant
            i <= v@.len(),
            s@ == v@.take(i as int),
        decreases v.len() - i,
    {
        push_char(&mut s, v[i]);
        assert(v@.take(i + 1) =~= v@.take(i as int).push(v@[i as int]));
        i = i + 1;
    }
    assert(v@.take(v@.len() as int) =~= v@);
    s
}

/// The characters of `v` from index `from` up to `to`.
pub fn slice_chars(v: &Vec<char>, from: usize, to: usize) -> (r: Vec<char>)
    requires
        from <= to <= v@.len(),
    ensures
        r@ == v@.subrange(from as int, to as int),
{
    let mut r: Vec<char> = Vec::new();
    let mut i: usize = from;
    while i < to
        invariant
            from <= i <= to,
            to <= v@.len(),
            r@ == v@.subrange(from as int, i as int),
        decreases to - i,
    {
        r.push(v[i]);
        assert(v@.subrange(from as int, i + 1) =~= v@.subrange(from as int, i as int).push(v@[i as int]));
        i = i + 1;
    }
    r
}

} // verus!
