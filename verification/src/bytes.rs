//! Byte-sequence primitives: substring search, prefix/suffix tests and
//! ASCII case folding, each with an exact specification.
//!
//! The child process speaks an unframed byte protocol, so everything the
//! crate decides — readiness, completion, error vocabulary — reduces to
//! questions about byte sequences answered here.

use vstd::prelude::*;

verus! {

/// The pattern `pat` occurs in `s` starting at position `i`.
pub open spec fn match_at(s: Seq<u8>, pat: Seq<u8>, i: int) -> bool {
    &&& 0 <= i
    &&& i + pat.len() <= s.len()
    &&& forall|j: int| 0 <= j < pat.len() ==> s[i + j] == pat[j]
}

/// The pattern `pat` occurs somewhere in `s`.
pub open spec fn contains_seq(s: Seq<u8>, pat: Seq<u8>) -> bool {
    exists|i: int| match_at(s, pat, i)
}

/// `s` ends with the pattern `pat`.
pub open spec fn ends_with_seq(s: Seq<u8>, pat: Seq<u8>) -> bool {
    pat.len() <= s.len() && match_at(s, pat, s.len() - pat.len())
}

/// `s` starts with the pattern `pat`.
pub open spec fn starts_with_seq(s: Seq<u8>, pat: Seq<u8>) -> bool {
    pat.len() <= s.len() && match_at(s, pat, 0)
}

/// ASCII upper-case letters fold to lower case; all other bytes are kept.
pub open spec fn ascii_lower(b: u8) -> u8 {
    if 65 <= b <= 90 {
        (b + 32) as u8
    } else {
        b
    }
}

/// `s` with every byte folded by [`ascii_lower`].
pub open spec fn lower_seq(s: Seq<u8>) -> Seq<u8> {
    s.map_values(|b: u8| ascii_lower(b))
}

/// Case folding keeps the length.
pub proof fn lemma_lower_seq_len(s: Seq<u8>)
    ensures
        lower_seq(s).len() == s.len(),
{
}

/// The pattern occurs in `s` up to ASCII case.
pub open spec fn contains_ci(s: Seq<u8>, pat: Seq<u8>) -> bool {
    contains_seq(lower_seq(s), lower_seq(pat))
}

/// Decides whether `pat` occurs in `s` at position `i`.
pub fn match_at_exec(s: &[u8], pat: &[u8], i: usize) -> (r: bool)
    requires
        i + pat@.len() <= s@.len(),
    ensures
        r == match_at(s@, pat@, i as int),
{
    let slen = s.len();
    let n = pat.len();
    let mut j: usize = 0;
    while j < n
        invariant
            slen == s@.len(),
            n == pat@.len(),
            i + n <= s@.len(),
            j <= n,
            forall|k: int| 0 <= k < j ==> s@[i + k] == pat@[k],
        decreases n - j,
    {
        if s[i + j] != pat[j] {
            return false;
        }
        j += 1;
    }
    true
}

/// Finds the first occurrence of `pat` in `s`, if any.
pub fn find_sub(s: &[u8], pat: &[u8]) -> (r: Option<usize>)
    ensures
        match r {
            Some(i) => match_at(s@, pat@, i as int) && forall|k: int|
                0 <= k < i ==> !match_at(s@, pat@, k),
            None => !contains_seq(s@, pat@),
        },
{
    if pat.len() == 0 {
        return Some(0);
    }
    if pat.len() > s.len() {
        return None;
    }
    let last = s.len() - pat.len();
    let mut i: usize = 0;
    while i <= last
        invariant
            1 <= pat@.len() <= s@.len() <= usize::MAX,
            last == s@.len() - pat@.len(),
            i <= last + 1,
            forall|k: int| 0 <= k < i ==> !match_at(s@, pat@, k),
        decreases last + 1 - i,
    {
        if match_at_exec(s, pat, i) {
            return Some(i);
        }
        i += 1;
    }
    None
}

/// Decides whether `pat` occurs anywhere in `s`.
pub fn contains_sub(s: &[u8], pat: &[u8]) -> (r: bool)
    ensures
        r == contains_seq(s@, pat@),
{
    find_sub(s, pat).is_some()
}

/// Decides whether `s` ends with `pat`.
pub fn ends_with_sub(s: &[u8], pat: &[u8]) -> (r: bool)
    ensures
        r == ends_with_seq(s@, pat@),
{
    if pat.len() > s.len() {
        return false;
    }
    match_at_exec(s, pat, s.len() - pat.len())
}

/// Decides whether `s` starts with `pat`.
pub fn starts_with_sub(s: &[u8], pat: &[u8]) -> (r: bool)
    ensures
        r == starts_with_seq(s@, pat@),
{
    if pat.len() > s.len() {
        return false;
    }
    match_at_exec(s, pat, 0)
}

/// Folds one byte to ASCII lower case.
pub fn ascii_lower_byte(b: u8) -> (r: u8)
    ensures
        r == ascii_lower(b),
{
    if 65 <= b && b <= 90 {
        b + 32
    } else {
        b
    }
}

/// Decides whether `pat` occurs in `s` at position `i`, up to ASCII case.
fn match_at_ci_exec(s: &[u8], pat: &[u8], i: usize) -> (r: bool)
    requires
        i + pat@.len() <= s@.len(),
    ensures
        r == match_at(lower_seq(s@), lower_seq(pat@), i as int),
{
    let slen = s.len();
    let n = pat.len();
    let mut j: usize = 0;
    while j < n
        invariant
            slen == s@.len(),
            n == pat@.len(),
            i + n <= s@.len(),
            j <= n,
            forall|k: int| 0 <= k < j ==> lower_seq(s@)[i + k] == lower_seq(pat@)[k],
        decreases n - j,
    {
        if ascii_lower_byte(s[i + j]) != ascii_lower_byte(pat[j]) {
            assert(lower_seq(s@)[i + j] != lower_seq(pat@)[j as int]);
            return false;
        }
        assert(lower_seq(s@)[i + j] == lower_seq(pat@)[j as int]);
        j += 1;
    }
    true
}

/// Decides whether `pat` occurs anywhere in `s`, up to ASCII case.
pub fn contains_sub_ci(s: &[u8], pat: &[u8]) -> (r: bool)
    ensures
        r == contains_ci(s@, pat@),
{
    if pat.len() == 0 {
        assert(match_at(lower_seq(s@), lower_seq(pat@), 0));
        return true;
    }
    if pat.len() > s.len() {
        return false;
    }
    let last = s.len() - pat.len();
    let mut i: usize = 0;
    while i <= last
        invariant
            1 <= pat@.len() <= s@.len() <= usize::MAX,
            last == s@.len() - pat@.len(),
            i <= last + 1,
            forall|k: int| 0 <= k < i ==> !match_at(lower_seq(s@), lower_seq(pat@), k),
        decreases last + 1 - i,
    {
        if match_at_ci_exec(s, pat, i) {
            return true;
        }
        i += 1;
    }
    false
}

/// Position of the first occurrence of `pat` in `s` at or after `i`, or -1.
pub open spec fn first_index_from(s: Seq<u8>, pat: Seq<u8>, i: int) -> int
    decreases s.len() - i,
{
    if i < 0 || i + pat.len() > s.len() {
        -1
    } else if match_at(s, pat, i) {
        i
    } else {
        first_index_from(s, pat, i + 1)
    }
}

/// Position of the first occurrence of `pat` in `s`, or -1 when absent.
pub open spec fn first_index(s: Seq<u8>, pat: Seq<u8>) -> int {
    first_index_from(s, pat, 0)
}

/// A match at `i` with none before it pins the first occurrence down.
pub proof fn lemma_first_index_of_match(s: Seq<u8>, pat: Seq<u8>, j: int, i: int)
    requires
        0 <= j <= i,
        match_at(s, pat, i),
        forall|k: int| j <= k < i ==> !match_at(s, pat, k),
    ensures
        first_index_from(s, pat, j) == i,
    decreases i - j,
{
    if j < i {
        lemma_first_index_of_match(s, pat, j + 1, i);
    }
}

/// Where nothing matches, there is no first occurrence.
pub proof fn lemma_first_index_of_none(s: Seq<u8>, pat: Seq<u8>, j: int)
    requires
        0 <= j,
        forall|k: int| j <= k ==> !match_at(s, pat, k),
    ensures
        first_index_from(s, pat, j) == -1,
    decreases s.len() - j,
{
    if pat.len() == 0 {
        if j <= s.len() {
            assert(match_at(s, pat, j));
        }
    } else if j + pat.len() <= s.len() {
        lemma_first_index_of_none(s, pat, j + 1);
    }
}

/// A found first occurrence really is a match.
pub proof fn lemma_first_index_is_match(s: Seq<u8>, pat: Seq<u8>, j: int)
    requires
        0 <= j,
    ensures
        first_index_from(s, pat, j) >= 0 ==> match_at(s, pat, first_index_from(s, pat, j)),
    decreases s.len() - j,
{
    if !(j + pat.len() > s.len()) && !match_at(s, pat, j) {
        lemma_first_index_is_match(s, pat, j + 1);
    }
}

/// Finds the first occurrence of `pat` in `s` as [`first_index`] gives it.
pub fn find_first(s: &[u8], pat: &[u8]) -> (r: Option<usize>)
    ensures
        match r {
            Some(i) => first_index(s@, pat@) == i as int && match_at(s@, pat@, i as int)
                && forall|k: int| 0 <= k < i ==> !match_at(s@, pat@, k),
            None => first_index(s@, pat@) == -1 && !contains_seq(s@, pat@),
        },
{
    let r = find_sub(s, pat);
    proof {
        match r {
            Some(i) => {
                lemma_first_index_of_match(s@, pat@, 0, i as int);
            },
            None => {
                assert(forall|k: int| 0 <= k ==> !match_at(s@, pat@, k));
                lemma_first_index_of_none(s@, pat@, 0);
            },
        }
    }
    r
}

/// An ASCII whitespace byte: space, tab, line feed or carriage return.
pub open spec fn is_ascii_ws(b: u8) -> bool {
    b == 32 || b == 9 || b == 10 || b == 13
}

/// Length of the leading ASCII whitespace run of `s`.
pub open spec fn ws_prefix_len(s: Seq<u8>) -> int
    decreases s.len(),
{
    if s.len() == 0 || !is_ascii_ws(s[0]) {
        0
    } else {
        1 + ws_prefix_len(s.drop_first())
    }
}

/// Length of the trailing ASCII whitespace run of `s`.
pub open spec fn ws_suffix_len(s: Seq<u8>) -> int
    decreases s.len(),
{
    if s.len() == 0 || !is_ascii_ws(s.last()) {
        0
    } else {
        1 + ws_suffix_len(s.drop_last())
    }
}

/// `s` with leading and trailing ASCII whitespace removed.
pub open spec fn trimmed(s: Seq<u8>) -> Seq<u8> {
    let t = s.take(s.len() - ws_suffix_len(s));
    t.skip(ws_prefix_len(t))
}

pub proof fn lemma_ws_suffix_len_bounds(s: Seq<u8>)
    ensures
        0 <= ws_suffix_len(s) <= s.len(),
    decreases s.len(),
{
    if s.len() > 0 && is_ascii_ws(s.last()) {
        lemma_ws_suffix_len_bounds(s.drop_last());
    }
}

pub proof fn lemma_ws_prefix_len_bounds(s: Seq<u8>)
    ensures
        0 <= ws_prefix_len(s) <= s.len(),
    decreases s.len(),
{
    if s.len() > 0 && is_ascii_ws(s[0]) {
        lemma_ws_prefix_len_bounds(s.drop_first());
    }
}

/// Decides whether `b` is ASCII whitespace.
pub fn is_ascii_ws_byte(b: u8) -> (r: bool)
    ensures
        r == is_ascii_ws(b),
{
    b == 32 || b == 9 || b == 10 || b == 13
}

/// Removes leading and trailing ASCII whitespace.
pub fn trim_bytes(s: &[u8]) -> (r: Vec<u8>)
    ensures
        r@ == trimmed(s@),
{
    let slen = s.len();
    let mut end = slen;
    proof {
        assert(s@.take(end as int) =~= s@);
        lemma_ws_suffix_len_bounds(s@);
    }
    while end > 0 && is_ascii_ws_byte(s[end - 1])
        invariant
            slen == s@.len(),
            end <= slen,
            ws_suffix_len(s@) == (s@.len() - end) + ws_suffix_len(s@.take(end as int)),
        decreases end,
    {
        proof {
            assert(s@.take(end as int).last() == s@[end - 1]);
            assert(s@.take(end as int).drop_last() =~= s@.take(end - 1));
            lemma_ws_suffix_len_bounds(s@.take(end - 1));
        }
        end -= 1;
    }
    proof {
        if end > 0 {
            assert(s@.take(end as int).last() == s@[end - 1]);
        }
        assert(ws_suffix_len(s@.take(end as int)) == 0);
        assert(end as int == s@.len() - ws_suffix_len(s@));
    }
    let ghost t = s@.take(end as int);
    let mut start: usize = 0;
    proof {
        assert(t.skip(0) =~= t);
        lemma_ws_prefix_len_bounds(t);
    }
    while start < end && is_ascii_ws_byte(s[start])
        invariant
            slen == s@.len(),
            start <= end <= slen,
            t == s@.take(end as int),
            ws_suffix_len(t) == 0,
            ws_prefix_len(t) == start + ws_prefix_len(t.skip(start as int)),
            start <= ws_prefix_len(t),
        decreases end - start,
    {
        proof {
            assert(t.skip(start as int)[0] == s@[start as int]);
            assert(t.skip(start as int).drop_first() =~= t.skip(start + 1));
            lemma_ws_prefix_len_bounds(t.skip(start + 1));
        }
        start += 1;
    }
    proof {
        if start < end {
            assert(t.skip(start as int)[0] == s@[start as int]);
        } else {
            assert(t.skip(start as int) =~= Seq::<u8>::empty());
        }
        assert(ws_prefix_len(t.skip(start as int)) == 0);
        assert(start as int == ws_prefix_len(t));
    }
    let r = vstd::slice::slice_to_vec(&s[start..end]);
    proof {
        assert(r@ =~= trimmed(s@));
    }
    r
}

/// Decides whether two byte strings are equal.
pub fn bytes_eq(a: &[u8], b: &[u8]) -> (r: bool)
    ensures
        r == (a@ == b@),
{
    if a.len() != b.len() {
        return false;
    }
    let r = match_at_exec(a, b, 0);
    proof {
        if r {
            assert(a@ =~= b@);
        } else {
            assert(a@.len() == b@.len());
            if a@ == b@ {
                assert(match_at(a@, b@, 0));
            }
        }
    }
    r
}

} // verus!
