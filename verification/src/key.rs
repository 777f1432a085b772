//! Task keys: random jj-style strings addressed by their shortest unique
//! prefix.
use rand::Rng;
use vstd::prelude::*;
use vstd::string::StringExecFns;

use crate::error::RangerError;
use crate::text::{chars_of, is_prefix, push_char, vec_starts_with};

verus! {

/// Number of characters in a generated key.
pub const KEY_LENGTH: usize = 16;

/// Number of letters in the key alphabet.
pub const ALPHABET_LEN: usize = 16;

/// The jj-style alphabet for pronounceable keys: the letters `k` through `z`.
pub open spec fn is_key_char(c: char) -> bool {
    'k' <= c && c <= 'z'
}

/// A uniformly random index below `bound` (`rand::thread_rng().gen_range`).
#[verifier::external_body]
fn random_index(bound: usize) -> (r: usize)
    requires
        bound > 0,
    ensures
        r < bound,
{
    rand::thread_rng().gen_range(0..bound)
}

/// Letter `i` of the key alphabet.
fn alphabet_letter(i: usize) -> (c: char)
    requires
        i < ALPHABET_LEN,
    ensures
        is_key_char(c),
        c as int == 107 + i,
{
    (107u8 + i as u8) as char
}

/// A fresh random key: `KEY_LENGTH` letters of the alphabet.
pub fn generate_key() -> (k: String)
    ensures
        k@.len() == KEY_LENGTH,
        forall|i: int| 0 <= i < k@.len() ==> is_key_char(#[trigger] k@[i]),
{
    let mut k = String::new();
    let mut n: usize = 0;
    while n < KEY_LENGTH
        invariant
            n <= KEY_LENGTH,
            k@.len() == n,
            forall|i: int| 0 <= i < k@.len() ==> is_key_char(#[trigger] k@[i]),
        decreases KEY_LENGTH - n,
    {
        let idx = random_index(ALPHABET_LEN);
        push_char(&mut k, alphabet_letter(idx));
        n = n + 1;
    }
    k
}

/// How many of `keys` start with `p`.
pub open spec fn count_prefixed(keys: Seq<Seq<char>>, p: Seq<char>) -> nat
    decreases keys.len(),
{
    if keys.len() == 0 {
        0
    } else {
        count_prefixed(keys.drop_last(), p) + if is_prefix(p, keys.last()) {
            1nat
        } else {
            0nat
        }
    }
}

/// `l` is a prefix length that tells `key` apart among `keys`.
pub open spec fn unique_at(key: Seq<char>, keys: Seq<Seq<char>>, l: int) -> bool {
    count_prefixed(keys, key.take(l)) <= 1
}

/// Some non-empty prefix of `key`, up to the whole key, tells it apart.
pub open spec fn has_unique_prefix(key: Seq<char>, keys: Seq<Seq<char>>) -> bool {
    exists|l: int| 1 <= l <= key.len() && unique_at(key, keys, l)
}

/// The shortest prefix length (at least 1, at most the key's length) that
/// tells `key` apart among `keys`.
pub open spec fn shortest_prefix_spec(key: Seq<char>, keys: Seq<Seq<char>>, l: int) -> bool {
    &&& 1 <= l <= key.len()
    &&& unique_at(key, keys, l)
    &&& forall|m: int| 1 <= m < l ==> !unique_at(key, keys, m)
}

proof fn lemma_count_step(keys: Seq<Seq<char>>, p: Seq<char>, i: int)
    requires
        0 <= i < keys.len(),
    ensures
        count_prefixed(keys.take(i + 1), p) == count_prefixed(keys.take(i), p) + if is_prefix(
            p,
            keys[i],
        ) {
            1nat
        } else {
            0nat
        },
{
    assert(keys.take(i + 1).drop_last() =~= keys.take(i));
}

/// The character sequences of a list of character vectors.
pub open spec fn char_rows(v: Seq<Vec<char>>) -> Seq<Seq<char>> {
    Seq::new(v.len(), |i: int| v[i]@)
}

/// Character vectors of a list of strings.
fn char_vecs(keys: &[String]) -> (v: Vec<Vec<char>>)
    ensures
        char_rows(v@) == keys.deep_view(),
        v@.len() == keys@.len(),
{
    let mut v: Vec<Vec<char>> = Vec::new();
    let mut i: usize = 0;
    while i < keys.len()
        invariant
            i <= keys@.len(),
            v@.len() == i,
            forall|k: int| 0 <= k < i ==> #[trigger] v@[k]@ == keys@[k]@,
        decreases keys.len() - i,
    {
        v.push(chars_of(keys[i].as_str()));
        i = i + 1;
    }
    assert(char_rows(v@) =~= keys.deep_view());
    v
}

/// How many of `keys` start with `p`.
fn count_with_prefix(keys: &Vec<Vec<char>>, p: &Vec<char>) -> (n: usize)
    ensures
        n == count_prefixed(char_rows(keys@), p@),
{
    let ghost ks = char_rows(keys@);
    let mut n: usize = 0;
    let mut i: usize = 0;
    while i < keys.len()
        invariant
            ks == char_rows(keys@),
            i <= keys@.len(),
            n == count_prefixed(ks.take(i as int), p@),
            n <= i,
        decreases keys.len() - i,
    {
        proof {
            lemma_count_step(ks, p@, i as int);
        }
        if vec_starts_with(&keys[i], p) {
            n = n + 1;
        }
        i = i + 1;
    }
    assert(ks.take(keys@.len() as int) =~= ks);
    n
}

/// The first `l` characters of `v`.
fn take_chars(v: &Vec<char>, l: usize) -> (p: Vec<char>)
    requires
        l <= v@.len(),
    ensures
        p@ == v@.take(l as int),
{
    let mut p: Vec<char> = Vec::new();
    let mut i: usize = 0;
    while i < l
        invariant
            l <= v@.len(),
            i <= l,
            p@ == v@.take(i as int),
        decreases l - i,
    {
        p.push(v[i]);
        assert(v@.take(i + 1) =~= v@.take(i as int).push(v@[i as int]));
        i = i + 1;
    }
    p
}

fn shortest_unique_len_of(key: &Vec<char>, keys: &Vec<Vec<char>>) -> (len: usize)
    requires
        has_unique_prefix(key@, char_rows(keys@)),
    ensures
        shortest_prefix_spec(key@, char_rows(keys@), len as int),
{
    let mut len: usize = 1;
    while len < key.len()
        invariant
            1 <= len <= key@.len(),
            has_unique_prefix(key@, char_rows(keys@)),
            forall|m: int| 1 <= m < len ==> !unique_at(key@, char_rows(keys@), m),
        decreases key.len() - len,
    {
        let prefix = take_chars(key, len);
        let count = count_with_prefix(keys, &prefix);
        if count <= 1 {
            return len;
        }
        len = len + 1;
    }
    proof {
        let l = choose|l: int| 1 <= l <= key@.len() && unique_at(key@, char_rows(keys@), l);
        assert(l == len);
    }
    len
}

/// Whether some non-empty prefix of `key`, up to the whole key, tells it
/// apart.
fn unique_prefix_exists(key: &Vec<char>, keys: &Vec<Vec<char>>) -> (b: bool)
    ensures
        b == has_unique_prefix(key@, char_rows(keys@)),
{
    let mut len: usize = 1;
    while len <= key.len()
        invariant
            1 <= len <= key@.len() + 1,
            forall|m: int| 1 <= m < len ==> !unique_at(key@, char_rows(keys@), m),
        decreases key.len() + 1 - len,
    {
        let prefix = take_chars(key, len);
        if count_with_prefix(keys, &prefix) <= 1 {
            assert(unique_at(key@, char_rows(keys@), len as int));
            return true;
        }
        if len == key.len() {
            return false;
        }
        len = len + 1;
    }
    false
}

/// Whether every key has a unique prefix among `keys` (a key that is empty,
/// or that another key of `keys` also starts with, has none), which `shortest_unique_prefix_len` and
/// `unique_prefix_lengths` need.
pub fn keys_have_unique_prefixes(keys: &[String]) -> (b: bool)
    ensures
        b == forall|i: int| 0 <= i < keys@.len() ==> has_unique_prefix(#[trigger] keys@[i]@, keys.deep_view()),
{
    let kvs = char_vecs(keys);
    let mut i: usize = 0;
    while i < keys.len()
        invariant
            i <= keys@.len(),
            char_rows(kvs@) == keys.deep_view(),
            kvs@.len() == keys@.len(),
            forall|j: int| 0 <= j < i ==> has_unique_prefix(#[trigger] keys@[j]@, keys.deep_view()),
        decreases keys.len() - i,
    {
        assert(kvs@[i as int]@ == keys@[i as int]@) by {
            assert(char_rows(kvs@)[i as int] == keys.deep_view()[i as int]);
        }
        if !unique_prefix_exists(&kvs[i], &kvs) {
            return false;
        }
        i = i + 1;
    }
    true
}

/// Returns the minimum prefix length needed to uniquely identify `key` among `all_keys`.
/// The minimum returned value is 1 (even if the set has only one key).
pub fn shortest_unique_prefix_len(key: &str, all_keys: &[String]) -> (len: usize)
    requires
        has_unique_prefix(key@, all_keys.deep_view()),
    ensures
        shortest_prefix_spec(key@, all_keys.deep_view(), len as int),
{
    let kv = chars_of(key);
    let keys = char_vecs(all_keys);
    shortest_unique_len_of(&kv, &keys)
}

/// The shortest unique prefix length of each key, in the order of `keys`.
pub fn prefix_lengths_in_order(keys: &[String]) -> (r: Vec<usize>)
    requires
        forall|i: int| 0 <= i < keys@.len() ==> has_unique_prefix(#[trigger] keys@[i]@, keys.deep_view()),
    ensures
        r@.len() == keys@.len(),
        forall|i: int| 0 <= i < keys@.len() ==> shortest_prefix_spec(keys@[i]@, keys.deep_view(), #[trigger] r@[i] as int),
{
    let kvs = char_vecs(keys);
    let mut r: Vec<usize> = Vec::new();
    let mut i: usize = 0;
    while i < keys.len()
        invariant
            i <= keys@.len(),
            char_rows(kvs@) == keys.deep_view(),
            kvs@.len() == keys@.len(),
            forall|j: int| 0 <= j < keys@.len() ==> has_unique_prefix(#[trigger] keys@[j]@, keys.deep_view()),
            r@.len() == i,
            forall|j: int| 0 <= j < i ==> shortest_prefix_spec(keys@[j]@, keys.deep_view(), #[trigger] r@[j] as int),
        decreases keys.len() - i,
    {
        assert(kvs@[i as int]@ == keys@[i as int]@) by {
            assert(char_rows(kvs@)[i as int] == keys.deep_view()[i as int]);
        }
        let len = shortest_unique_len_of(&kvs[i], &kvs);
        r.push(len);
        i = i + 1;
    }
    r
}

/// What a map holds for `k`, if anything.
pub open spec fn lookup(m: Map<Seq<char>, usize>, k: Seq<char>) -> Option<usize> {
    if m.contains_key(k) {
        Some(m[k])
    } else {
        None
    }
}

/// The text of each key of a list of (key, length) entries.
pub open spec fn entry_keys(entries: Seq<(String, usize)>) -> Seq<Seq<char>> {
    entries.map_values(|e: (String, usize)| e.0@)
}

/// The shortest unique prefix length of each of a set of keys, looked up by
/// key: a map whose keys are texts.
pub struct PrefixLengths {
    entries: Vec<(String, usize)>,
}

impl PrefixLengths {
    #[verifier::type_invariant]
    spec fn keys_distinct(self) -> bool {
        entry_keys(self.entries@).no_duplicates()
    }

    /// The number of keys.
    pub fn len(&self) -> (n: usize)
        ensures
            n == self@.len(),
    {
        proof {
            use_type_invariant(self);
            let ks = entry_keys(self.entries@);
            assert(self@.dom() =~= ks.to_set());
            ks.unique_seq_to_set();
        }
        self.entries.len()
    }

    /// The length stored for `key`, if it is one of the keys.
    pub fn get(&self, key: &str) -> (r: Option<usize>)
        ensures
            r == lookup(self@, key@),
    {
        proof {
            use_type_invariant(self);
        }
        let ghost ks = entry_keys(self.entries@);
        let mut i: usize = 0;
        while i < self.entries.len()
            invariant
                i <= self.entries@.len(),
                ks == entry_keys(self.entries@),
                ks.no_duplicates(),
                forall|j: int| 0 <= j < i ==> (#[trigger] self.entries@[j]).0@ != key@,
            decreases self.entries.len() - i,
        {
            if crate::models::str_eq(self.entries[i].0.as_str(), key) {
                proof {
                    assert(ks[i as int] == key@);
                    let c = choose|c: int| 0 <= c < self.entries@.len() && self.entries@[c].0@ == key@;
                    assert(ks[c] == key@);
                    assert(c == i);
                }
                return Some(self.entries[i].1);
            }
            i = i + 1;
        }
        proof {
            if ks.contains(key@) {
                let c = choose|c: int| 0 <= c < ks.len() && ks[c] == key@;
                assert(self.entries@[c].0@ == key@);
            }
        }
        None
    }
}

impl View for PrefixLengths {
    type V = Map<Seq<char>, usize>;

    /// Each key's text mapped to its stored length.
    closed spec fn view(&self) -> Map<Seq<char>, usize> {
        Map::new(
            |k: Seq<char>| entry_keys(self.entries@).contains(k),
            |k: Seq<char>|
                self.entries@[choose|c: int| 0 <= c < self.entries@.len() && self.entries@[c].0@ == k].1,
        )
    }
}

/// Builds a map from key → shortest unique prefix length for all keys in the set.
pub fn unique_prefix_lengths(keys: &[String]) -> (m: PrefixLengths)
    requires
        forall|i: int| 0 <= i < keys@.len() ==> has_unique_prefix(#[trigger] keys@[i]@, keys.deep_view()),
    ensures
        forall|k: Seq<char>| #[trigger] m@.contains_key(k) <==> keys.deep_view().contains(k),
        forall|i: int|
            0 <= i < keys@.len() ==> shortest_prefix_spec(
                keys@[i]@,
                keys.deep_view(),
                #[trigger] m@[keys@[i]@] as int,
            ),
{
    let lens = prefix_lengths_in_order(keys);
    let ghost ks = keys.deep_view();
    let mut entries: Vec<(String, usize)> = Vec::new();
    let mut i: usize = 0;
    while i < keys.len()
        invariant
            i <= keys@.len(),
            ks == keys.deep_view(),
            lens@.len() == keys@.len(),
            forall|j: int| 0 <= j < keys@.len() ==> shortest_prefix_spec(keys@[j]@, ks, #[trigger] lens@[j] as int),
            entry_keys(entries@).no_duplicates(),
            forall|k: Seq<char>| entry_keys(entries@).contains(k) <==> #[trigger] ks.take(i as int).contains(k),
            forall|j: int|
                0 <= j < entries@.len() ==> shortest_prefix_spec(
                    (#[trigger] entries@[j]).0@,
                    ks,
                    entries@[j].1 as int,
                ),
        decreases keys.len() - i,
    {
        let ghost old_keys = entry_keys(entries@);
        let mut seen = false;
        let mut p: usize = 0;
        while p < entries.len()
            invariant
                p <= entries@.len(),
                old_keys == entry_keys(entries@),
                i < keys@.len(),
                seen ==> old_keys.contains(keys@[i as int]@),
                !seen ==> forall|q: int| 0 <= q < p ==> old_keys[q] != keys@[i as int]@,
            decreases entries.len() - p,
        {
            if !seen && crate::models::str_eq(entries[p].0.as_str(), keys[i].as_str()) {
                seen = true;
                assert(old_keys[p as int] == keys@[i as int]@);
            }
            p = p + 1;
        }
        let ghost t0 = ks.take(i as int);
        let ghost t1 = ks.take(i + 1);
        proof {
            assert(t1 =~= t0.push(ks[i as int]));
            assert(ks[i as int] == keys@[i as int]@);
        }
        if !seen {
            let k = keys[i].clone();
            entries.push((k, lens[i]));
            proof {
                let nk = entry_keys(entries@);
                assert(nk =~= old_keys.push(keys@[i as int]@));
                assert(!old_keys.contains(keys@[i as int]@));
                assert forall|k2: Seq<char>| nk.contains(k2) <==> #[trigger] t1.contains(k2) by {
                    if nk.contains(k2) && k2 != keys@[i as int]@ {
                        let c = choose|c: int| 0 <= c < nk.len() && nk[c] == k2;
                        assert(old_keys[c] == k2);
                    }
                    if old_keys.contains(k2) {
                        let c = choose|c: int| 0 <= c < old_keys.len() && old_keys[c] == k2;
                        assert(nk[c] == k2);
                    }
                    if t1.contains(k2) && k2 != keys@[i as int]@ {
                        let c = choose|c: int| 0 <= c < t1.len() && t1[c] == k2;
                        assert(t0[c] == k2);
                    }
                    if t0.contains(k2) {
                        let c = choose|c: int| 0 <= c < t0.len() && t0[c] == k2;
                        assert(t1[c] == k2);
                    }
                    assert(nk[nk.len() - 1] == keys@[i as int]@);
                    assert(t1[i as int] == keys@[i as int]@);
                }
                assert(shortest_prefix_spec(keys@[i as int]@, ks, lens@[i as int] as int));
            }
        } else {
            proof {
                assert forall|k2: Seq<char>| old_keys.contains(k2) <==> #[trigger] t1.contains(k2) by {
                    if t1.contains(k2) && k2 != keys@[i as int]@ {
                        let c = choose|c: int| 0 <= c < t1.len() && t1[c] == k2;
                        assert(t0[c] == k2);
                    }
                    if t0.contains(k2) {
                        let c = choose|c: int| 0 <= c < t0.len() && t0[c] == k2;
                        assert(t1[c] == k2);
                    }
                    assert(t1[i as int] == keys@[i as int]@);
                }
            }
        }
        i = i + 1;
    }
    proof {
        assert(ks.take(keys@.len() as int) =~= ks);
    }
    let m = PrefixLengths { entries };
    proof {
        let ek = entry_keys(m.entries@);
        assert forall|k: Seq<char>| #[trigger] m@.contains_key(k) <==> ks.contains(k) by {}
        assert forall|j: int| 0 <= j < keys@.len() implies shortest_prefix_spec(
            keys@[j]@,
            ks,
            #[trigger] m@[keys@[j]@] as int,
        ) by {
            assert(ks[j] == keys@[j]@);
            assert(ks.contains(keys@[j]@));
            assert(ek.contains(keys@[j]@));
            let c = choose|c: int| 0 <= c < m.entries@.len() && m.entries@[c].0@ == keys@[j]@;
            let c0 = choose|c0: int| 0 <= c0 < ek.len() && ek[c0] == keys@[j]@;
            assert(m.entries@[c0].0@ == keys@[j]@);
            assert(shortest_prefix_spec(m.entries@[c].0@, ks, m.entries@[c].1 as int));
        }
    }
    m
}

/// The key among `keys` that starts with `prefix`, if exactly one does.
pub fn resolve_prefix(prefix: &str, keys: &[String]) -> (r: Result<String, RangerError>)
    ensures
        match r {
            Ok(k) => count_prefixed(keys.deep_view(), prefix@) == 1 && is_prefix(prefix@, k@)
                && keys.deep_view().contains(k@),
            Err(RangerError::KeyNotFound(p)) => p@ == prefix@ && count_prefixed(
                keys.deep_view(),
                prefix@,
            ) == 0,
            Err(RangerError::AmbiguousPrefix(p)) => p@ == prefix@ && count_prefixed(
                keys.deep_view(),
                prefix@,
            ) >= 2,
            Err(_) => false,
        },
{
    let pv = chars_of(prefix);
    let kvs = char_vecs(keys);
    let ghost ks = keys.deep_view();
    let mut count: usize = 0;
    let mut first: usize = 0;
    let mut i: usize = 0;
    while i < keys.len()
        invariant
            ks == keys.deep_view(),
            char_rows(kvs@) == ks,
            kvs@.len() == keys@.len(),
            pv@ == prefix@,
            i <= keys@.len(),
            count == count_prefixed(ks.take(i as int), prefix@),
            count <= i,
            count >= 1 ==> first < i && is_prefix(prefix@, ks[first as int]),
        decreases keys.len() - i,
    {
        proof {
            lemma_count_step(ks, prefix@, i as int);
        }
        assert(kvs@[i as int]@ == ks[i as int]) by {
            assert(char_rows(kvs@)[i as int] == ks[i as int]);
        }
        if vec_starts_with(&kvs[i], &pv) {
            if count == 0 {
                first = i;
            }
            count = count + 1;
        }
        i = i + 1;
    }
    assert(ks.take(keys@.len() as int) =~= ks);
    if count == 0 {
        Err(RangerError::KeyNotFound(String::from_str(prefix)))
    } else if count == 1 {
        let k = keys[first].clone();
        assert(ks[first as int] == keys@[first as int]@);
        Ok(k)
    } else {
        Err(RangerError::AmbiguousPrefix(String::from_str(prefix)))
    }
}

proof fn lemma_count_one(keys: Seq<Seq<char>>, p: Seq<char>, i: int)
    requires
        0 <= i < keys.len(),
        is_prefix(p, keys[i]),
    ensures
        count_prefixed(keys, p) >= 1,
    decreases keys.len(),
{
    if i < keys.len() - 1 {
        let init = keys.drop_last();
        assert(init[i] == keys[i]);
        lemma_count_one(init, p, i);
    }
}

proof fn lemma_count_two(keys: Seq<Seq<char>>, p: Seq<char>, i: int, j: int)
    requires
        0 <= i < j < keys.len(),
        is_prefix(p, keys[i]),
        is_prefix(p, keys[j]),
    ensures
        count_prefixed(keys, p) >= 2,
    decreases keys.len(),
{
    let init = keys.drop_last();
    assert(init[i] == keys[i]);
    if j == keys.len() - 1 {
        lemma_count_one(init, p, i);
    } else {
        assert(init[j] == keys[j]);
        lemma_count_two(init, p, i, j);
    }
}

proof fn lemma_count_mono(keys: Seq<Seq<char>>, p: Seq<char>, q: Seq<char>)
    requires
        forall|i: int| 0 <= i < keys.len() && is_prefix(q, #[trigger] keys[i]) ==> is_prefix(p, keys[i]),
    ensures
        count_prefixed(keys, q) <= count_prefixed(keys, p),
    decreases keys.len(),
{
    if keys.len() > 0 {
        let init = keys.drop_last();
        assert forall|i: int| 0 <= i < init.len() && is_prefix(q, #[trigger] init[i]) implies is_prefix(p, init[i]) by {
            assert(init[i] == keys[i]);
        }
        lemma_count_mono(init, p, q);
        assert(keys.last() == keys[keys.len() - 1]);
    }
}

/// Typing just enough characters: any prefix of a key at least as long as
/// its shortest unique prefix (`shortest`), up to the whole key, matches
/// that key alone among the keys, so resolving it gives the key back.
pub proof fn lemma_unique_prefix_resolves(key: Seq<char>, keys: Seq<Seq<char>>, shortest: int, l: int)
    requires
        shortest_prefix_spec(key, keys, shortest),
        shortest <= l <= key.len(),
        keys.contains(key),
    ensures
        count_prefixed(keys, key.take(l)) == 1,
        forall|i: int| 0 <= i < keys.len() && is_prefix(key.take(l), #[trigger] keys[i]) ==> keys[i] == key,
{
    let p = key.take(shortest);
    let q = key.take(l);
    assert forall|i: int| 0 <= i < keys.len() && is_prefix(q, #[trigger] keys[i]) implies is_prefix(p, keys[i]) by {
        assert(keys[i].take(p.len() as int) =~= q.take(p.len() as int));
        assert(q.take(p.len() as int) =~= p);
    }
    lemma_count_mono(keys, p, q);
    let k0 = choose|k: int| 0 <= k < keys.len() && keys[k] == key;
    assert(is_prefix(q, keys[k0])) by {
        assert(key.take(q.len() as int) =~= q);
    }
    lemma_count_one(keys, q, k0);
    assert forall|i: int| 0 <= i < keys.len() && is_prefix(q, #[trigger] keys[i]) implies keys[i] == key by {
        if i < k0 {
            lemma_count_two(keys, q, i, k0);
        } else if i > k0 {
            lemma_count_two(keys, q, k0, i);
        }
        assert(keys[i] == keys[k0]);
    }
}

} // verus!
