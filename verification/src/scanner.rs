use vstd::prelude::*;

verus! {

/// Index of the first occurrence of `t` in `s` at or after `start`;
/// `s.len()` when `t` does not occur there.
pub open spec fn find_from(s: Seq<u8>, start: int, t: u8) -> int
    decreases s.len() - start,
{
    if start < 0 || start >= s.len() {
        s.len() as int
    } else if s[start] == t {
        start
    } else {
        find_from(s, start + 1, t)
    }
}

/// The three facts that characterise `find_from`: it stays within
/// `[start, s.len()]`, it lands on `t` unless `t` is absent, and nothing
/// before it matches.
pub proof fn lemma_find_from(s: Seq<u8>, start: int, t: u8)
    requires
        0 <= start <= s.len(),
    ensures
        start <= find_from(s, start, t) <= s.len(),
        find_from(s, start, t) < s.len() ==> s[find_from(s, start, t)] == t,
        forall|i: int| start <= i < find_from(s, start, t) ==> s[i] != t,
    decreases s.len() - start,
{
    if start < s.len() && s[start] != t {
        lemma_find_from(s, start + 1, t);
    }
}

/// Any position with no match before it that either matches or is the end
/// is exactly what `find_from` returns.
pub proof fn lemma_find_from_is(s: Seq<u8>, start: int, t: u8, r: int)
    requires
        0 <= start <= r <= s.len(),
        forall|i: int| start <= i < r ==> s[i] != t,
        r == s.len() || s[r] == t,
    ensures
        find_from(s, start, t) == r,
    decreases r - start,
{
    if start < r {
        lemma_find_from_is(s, start + 1, t, r);
    }
}

/// Scans a fixed 32-byte window from `start` first, then falls back to a
/// byte-by-byte pass over the remainder, returning the position of the
/// first occurrence of `t` at or after `start`, or `s.len()` if there is
/// none before the end of the range.
pub fn find_byte(s: &[u8], start: usize, t: u8) -> (r: usize)
    requires
        start <= s@.len(),
    ensures
        r == find_from(s@, start as int, t),
        start <= r <= s@.len(),
        r < s@.len() ==> s@[r as int] == t,
        forall|i: int| start <= i < r ==> s@[i] != t,
{
    let len: usize = s.len();
    let window_end: usize = if len - start >= 32 {
        start + 32
    } else {
        len
    };
    let mut i: usize = start;
    while i < window_end
        invariant
            start <= i <= window_end <= len,
            len == s@.len(),
            forall|j: int| start <= j < i ==> s@[j] != t,
        decreases window_end - i,
    {
        if s[i] == t {
            proof {
                lemma_find_from_is(s@, start as int, t, i as int);
            }
            return i;
        }
        i = i + 1;
    }
    while i < len
        invariant
            start <= i <= len,
            len == s@.len(),
            forall|j: int| start <= j < i ==> s@[j] != t,
        decreases len - i,
    {
        if s[i] == t {
            proof {
                lemma_find_from_is(s@, start as int, t, i as int);
            }
            return i;
        }
        i = i + 1;
    }
    proof {
        lemma_find_from_is(s@, start as int, t, len as int);
    }
    len
}

} // verus!
