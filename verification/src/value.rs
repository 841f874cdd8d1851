use vstd::prelude::*;

use crate::scanner::{find_byte, find_from, lemma_find_from, lemma_find_from_is};
use crate::DecodeError;

verus! {

/// Largest magnitude, in tenths, that a decoded value may have.
pub const VAL_LIMIT: i64 = 1000000000000000;

/// Largest integer part a decoded value may have (`VAL_LIMIT` in whole units).
pub const MANT_LIMIT: i64 = 100000000000000;

pub open spec fn is_ascii_digit(b: u8) -> bool {
    48 <= b <= 57
}

pub open spec fn all_digits(s: Seq<u8>) -> bool {
    forall|i: int| 0 <= i < s.len() ==> is_ascii_digit(s[i])
}

/// The base-10 integer written by a run of ASCII digits.
pub open spec fn digits_value(s: Seq<u8>) -> int
    decreases s.len(),
{
    if s.len() == 0 {
        0
    } else {
        digits_value(s.drop_last()) * 10 + (s.last() - 48)
    }
}

/// The value, in tenths, written by an unsigned decimal of the form
/// `DIGITS` or `DIGITS.DIGIT`; `None` when the text has another shape or
/// the value exceeds `VAL_LIMIT`.
pub open spec fn parse_unsigned_spec(s: Seq<u8>) -> Option<int> {
    let d = find_from(s, 0, 46);
    if s.len() == 0 {
        None
    } else if d == s.len() {
        if all_digits(s) && digits_value(s) * 10 <= VAL_LIMIT {
            Some(digits_value(s) * 10)
        } else {
            None
        }
    } else {
        if 1 <= d && d + 2 == s.len() && all_digits(s.subrange(0, d)) && is_ascii_digit(
            s[d + 1],
        ) && digits_value(s.subrange(0, d)) * 10 + (s[d + 1] - 48) <= VAL_LIMIT {
            Some(digits_value(s.subrange(0, d)) * 10 + (s[d + 1] - 48))
        } else {
            None
        }
    }
}

/// The value, in tenths, written by a decimal with an optional leading `-`.
pub open spec fn parse_value_spec(s: Seq<u8>) -> Option<int> {
    if s.len() > 0 && s[0] == 45 {
        match parse_unsigned_spec(s.subrange(1, s.len() as int)) {
            Some(v) => Some(-v),
            None => None,
        }
    } else {
        parse_unsigned_spec(s)
    }
}

proof fn lemma_digits_value_nonneg(s: Seq<u8>)
    requires
        all_digits(s),
    ensures
        digits_value(s) >= 0,
    decreases s.len(),
{
    if s.len() > 0 {
        assert(all_digits(s.drop_last()));
        lemma_digits_value_nonneg(s.drop_last());
    }
}

/// A digit run's value only grows as digits are appended on the right.
proof fn lemma_digits_value_mono(s: Seq<u8>, j: int)
    requires
        all_digits(s),
        0 <= j <= s.len(),
    ensures
        digits_value(s.subrange(0, j)) <= digits_value(s),
    decreases s.len(),
{
    if j == s.len() {
        assert(s.subrange(0, j) =~= s);
    } else {
        let t = s.drop_last();
        assert(all_digits(t));
        assert(s.subrange(0, j) =~= t.subrange(0, j));
        lemma_digits_value_mono(t, j);
        lemma_digits_value_nonneg(t);
        lemma_digits_value_nonneg(t.subrange(0, j));
    }
}

/// Decodes the digit run `s[start..end]` as a base-10 integer, rejecting
/// an empty run, a non-digit byte, or a value above `MANT_LIMIT`.
fn parse_digits(s: &[u8], start: usize, end: usize) -> (r: Result<i64, DecodeError>)
    requires
        start <= end <= s@.len(),
    ensures
        match r {
            Ok(v) => start < end && all_digits(s@.subrange(start as int, end as int)) && v
                == digits_value(s@.subrange(start as int, end as int)) && 0 <= v <= MANT_LIMIT,
            Err(_) => start == end || !all_digits(s@.subrange(start as int, end as int))
                || digits_value(s@.subrange(start as int, end as int)) > MANT_LIMIT,
        },
{
    if start == end {
        return Err(DecodeError);
    }
    let ghost whole = s@.subrange(start as int, end as int);
    let mut acc: i64 = 0;
    let mut i: usize = start;
    while i < end
        invariant
            start <= i <= end <= s@.len(),
            whole == s@.subrange(start as int, end as int),
            all_digits(s@.subrange(start as int, i as int)),
            acc == digits_value(s@.subrange(start as int, i as int)),
            0 <= acc <= MANT_LIMIT,
        decreases end - i,
    {
        let b = s[i];
        if b < 48 || b > 57 {
            assert(!all_digits(whole)) by {
                assert(whole[i - start] == s@[i as int]);
            }
            return Err(DecodeError);
        }
        proof {
            assert(s@.subrange(start as int, i + 1).drop_last() =~= s@.subrange(
                start as int,
                i as int,
            ));
            assert(s@.subrange(start as int, i + 1).last() == s@[i as int]);
        }
        let acc2: i64 = acc * 10 + ((b - 48) as i64);
        if acc2 > MANT_LIMIT {
            assert(!all_digits(whole) || digits_value(whole) > MANT_LIMIT) by {
                if all_digits(whole) {
                    lemma_digits_value_mono(whole, i + 1 - start);
                    assert(whole.subrange(0, i + 1 - start) =~= s@.subrange(start as int, i + 1));
                }
            }
            return Err(DecodeError);
        }
        acc = acc2;
        i = i + 1;
    }
    assert(s@.subrange(start as int, i as int) =~= whole);
    Ok(acc)
}

/// Decodes a decimal value of the form `-?DIGITS` or `-?DIGITS.DIGIT` into
/// tenths; every other shape, and any magnitude above `VAL_LIMIT`, is a
/// `DecodeError`.
pub fn parse_value(s: &[u8]) -> (r: Result<i64, DecodeError>)
    ensures
        match r {
            Ok(v) => parse_value_spec(s@) == Some(v as int) && -VAL_LIMIT <= v <= VAL_LIMIT,
            Err(_) => parse_value_spec(s@) is None,
        },
{
    let len: usize = s.len();
    let neg: bool = len > 0 && s[0] == 45;
    let off: usize = if neg {
        1
    } else {
        0
    };
    let ghost body = s@.subrange(off as int, len as int);
    proof {
        if !neg {
            assert(body =~= s@);
        }
    }
    if off >= len {
        return Err(DecodeError);
    }
    let d = find_byte(s, off, 46);
    proof {
        lemma_find_from(s@, off as int, 46);
        lemma_find_from_is(body, 0, 46, d - off);
    }
    assert(find_from(body, 0, 46) == d - off);
    if d == len {
        assert(body =~= s@.subrange(off as int, len as int));
        match parse_digits(s, off, len) {
            Ok(m) => {
                assert(body =~= s@.subrange(off as int, len as int));
                let v: i64 = m * 10;
                assert(parse_unsigned_spec(body) == Some(v as int));
                if neg {
                    Ok(-v)
                } else {
                    Ok(v)
                }
            },
            Err(e) => {
                assert(parse_unsigned_spec(body) is None);
                Err(e)
            },
        }
    } else {
        if len - d != 2 {
            return Err(DecodeError);
        }
        let fb = s[d + 1];
        assert(body[d - off + 1] == fb);
        if fb < 48 || fb > 57 {
            return Err(DecodeError);
        }
        assert(body.subrange(0, d - off) =~= s@.subrange(off as int, d as int));
        match parse_digits(s, off, d) {
            Ok(m) => {
                let v: i64 = m * 10 + ((fb - 48) as i64);
                if v > VAL_LIMIT {
                    return Err(DecodeError);
                }
                assert(parse_unsigned_spec(body) == Some(v as int));
                if neg {
                    Ok(-v)
                } else {
                    Ok(v)
                }
            },
            Err(e) => {
                assert(parse_unsigned_spec(body) is None);
                Err(e)
            },
        }
    }
}

} // verus!
