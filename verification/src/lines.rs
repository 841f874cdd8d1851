use vstd::prelude::*;

use crate::scanner::{find_byte, find_from, lemma_find_from, lemma_find_from_is};
use crate::value::{parse_value, parse_value_spec, VAL_LIMIT};
use crate::DecodeError;

verus! {

/// The line terminator byte.
pub const LF: u8 = 10;

/// The key/value delimiter byte.
pub const SEMI: u8 = 59;

/// The records written in `s` from cursor `c` on: each line is
/// `KEY;VALUE` ended by a line feed (the last line may omit it), the key
/// is the bytes before the first delimiter of the line, and the value is
/// a fixed-point decimal in tenths. `None` when some line has no
/// delimiter before its terminator or a value that does not decode.
pub open spec fn lines_at(s: Seq<u8>, c: int) -> Option<Seq<(Seq<u8>, int)>>
    decreases s.len() + 1 - c,
    via lines_at_decreases
{
    if c < 0 || c >= s.len() {
        Some(Seq::empty())
    } else {
        let e = find_from(s, c, LF);
        let d = find_from(s, c, SEMI);
        if d >= e {
            None
        } else {
            match parse_value_spec(s.subrange(d + 1, e)) {
                None => None,
                Some(v) => match lines_at(s, e + 1) {
                    None => None,
                    Some(rest) => Some(seq![(s.subrange(c, d), v)] + rest),
                },
            }
        }
    }
}

#[via_fn]
proof fn lines_at_decreases(s: Seq<u8>, c: int) {
    if !(c < 0 || c >= s.len()) {
        lemma_find_from(s, c, LF);
    }
}

/// All records written in `s`.
pub open spec fn lines_of(s: Seq<u8>) -> Option<Seq<(Seq<u8>, int)>> {
    lines_at(s, 0)
}

/// Every record spends at least two bytes of the input.
pub proof fn lemma_lines_at_len(s: Seq<u8>, c: int)
    requires
        0 <= c <= s.len() + 1,
        lines_at(s, c) is Some,
    ensures
        2 * lines_at(s, c).unwrap().len() <= s.len() + 2 - c,
    decreases s.len() + 1 - c,
{
    if c < s.len() {
        let e = find_from(s, c, LF);
        let d = find_from(s, c, SEMI);
        lemma_find_from(s, c, LF);
        lemma_find_from(s, c, SEMI);
        if d < e {
            match parse_value_spec(s.subrange(d + 1, e)) {
                None => {},
                Some(v) => {
                    lemma_lines_at_len(s, e + 1);
                },
            }
        }
    }
}

/// Parsing a suffix in place equals parsing it on its own: records name
/// the same key bytes and values either way.
pub proof fn lemma_lines_at_shift(s1: Seq<u8>, s2: Seq<u8>, c: int)
    requires
        0 <= c <= s2.len() + 1,
    ensures
        lines_at(s1 + s2, s1.len() + c) == lines_at(s2, c),
    decreases s2.len() + 2 - c,
{
    let s = s1 + s2;
    let n = s1.len() as int;
    if c >= s2.len() {
        assert(n + c >= s.len());
    } else {
        let e2 = find_from(s2, c, LF);
        let d2 = find_from(s2, c, SEMI);
        lemma_find_from(s2, c, LF);
        lemma_find_from(s2, c, SEMI);
        assert forall|i: int| n + c <= i < n + e2 implies s[i] != LF by {
            assert(s[i] == s2[i - n]);
        }
        assert forall|i: int| n + c <= i < n + d2 implies s[i] != SEMI by {
            assert(s[i] == s2[i - n]);
        }
        if e2 < s2.len() {
            assert(s[n + e2] == s2[e2]);
        }
        if d2 < s2.len() {
            assert(s[n + d2] == s2[d2]);
        }
        lemma_find_from_is(s, n + c, LF, n + e2);
        lemma_find_from_is(s, n + c, SEMI, n + d2);
        if d2 < e2 {
            assert(s.subrange(n + d2 + 1, n + e2) =~= s2.subrange(d2 + 1, e2));
            assert(s.subrange(n + c, n + d2) =~= s2.subrange(c, d2));
            match parse_value_spec(s2.subrange(d2 + 1, e2)) {
                None => {},
                Some(v) => {
                    lemma_lines_at_shift(s1, s2, e2 + 1);
                },
            }
        }
    }
}

/// Cutting the input after a line feed cuts between records: the whole
/// input's records are those of the first part followed by those of the
/// second, and a malformed line on either side is malformed in the whole.
pub proof fn lemma_lines_append(s1: Seq<u8>, s2: Seq<u8>, c: int)
    requires
        0 <= c <= s1.len(),
        s1.len() == 0 || s1[s1.len() - 1] == LF,
    ensures
        lines_at(s1 + s2, c) == match (lines_at(s1, c), lines_of(s2)) {
            (Some(a), Some(b)) => Some(a + b),
            _ => None::<Seq<(Seq<u8>, int)>>,
        },
    decreases s1.len() + 1 - c,
{
    let s = s1 + s2;
    let n = s1.len() as int;
    if c >= n {
        lemma_lines_at_shift(s1, s2, 0);
        assert(lines_at(s1, c) == Some(Seq::<(Seq<u8>, int)>::empty()));
        match lines_of(s2) {
            None => {},
            Some(b) => {
                assert(Seq::<(Seq<u8>, int)>::empty() + b =~= b);
            },
        }
    } else {
        let e1 = find_from(s1, c, LF);
        let d1 = find_from(s1, c, SEMI);
        lemma_find_from(s1, c, LF);
        lemma_find_from(s1, c, SEMI);
        assert(e1 <= n - 1) by {
            if e1 > n - 1 {
                assert(s1[n - 1] == LF);
            }
        }
        assert forall|i: int| c <= i < e1 implies s[i] != LF by {
            assert(s[i] == s1[i]);
        }
        assert(s[e1] == s1[e1]);
        lemma_find_from_is(s, c, LF, e1);
        if d1 >= e1 {
            // no delimiter on this line in either reading
            let ds = find_from(s, c, SEMI);
            lemma_find_from(s, c, SEMI);
            assert(ds >= e1) by {
                if ds < e1 {
                    assert(s[ds] == s1[ds]);
                }
            }
        } else {
            assert forall|i: int| c <= i < d1 implies s[i] != SEMI by {
                assert(s[i] == s1[i]);
            }
            assert(s[d1] == s1[d1]);
            lemma_find_from_is(s, c, SEMI, d1);
            assert(s.subrange(d1 + 1, e1) =~= s1.subrange(d1 + 1, e1));
            assert(s.subrange(c, d1) =~= s1.subrange(c, d1));
            match parse_value_spec(s1.subrange(d1 + 1, e1)) {
                None => {},
                Some(v) => {
                    lemma_lines_append(s1, s2, e1 + 1);
                    match (lines_at(s1, e1 + 1), lines_of(s2)) {
                        (Some(a), Some(b)) => {
                            let rec = (s1.subrange(c, d1), v);
                            assert(seq![rec] + (a + b) =~= (seq![rec] + a) + b);
                        },
                        _ => {},
                    }
                },
            }
        }
    }
}

/// Reads the record that begins at cursor `c`, pinned by that line
/// alone: the key runs from `c` to the line's first delimiter, the value
/// text from there to the line's first line feed and decodes to `v`, and
/// the cursor advances one past that line feed (capped at the end of the
/// input, which ends the scan). `Err` exactly when the line at `c` has
/// no delimiter before its terminator or a value that does not decode;
/// `Ok(None)` exactly when `c` is at or past the end.
pub fn next_line(s: &[u8], c: usize) -> (r: Result<
    Option<(usize, usize, i64, usize)>,
    DecodeError,
>)
    ensures
        match r {
            Ok(opt) => match opt {
                None => c >= s@.len() && lines_at(s@, c as int) == Some(
                    Seq::<(Seq<u8>, int)>::empty(),
                ),
                Some((ks, ke, v, next)) => {
                    let term = find_from(s@, c as int, LF);
                    let delim = find_from(s@, c as int, SEMI);
                    &&& c < s@.len()
                    &&& ks == c
                    &&& ke == delim
                    &&& delim < term
                    &&& parse_value_spec(s@.subrange(delim + 1, term)) == Some(v as int)
                    &&& next as int == (if term < s@.len() {
                        term + 1
                    } else {
                        s@.len() as int
                    })
                    &&& c <= ke < next
                    &&& c + 2 <= next <= s@.len()
                    &&& -VAL_LIMIT <= v <= VAL_LIMIT
                    &&& lines_at(s@, c as int) == (match lines_at(s@, next as int) {
                        Some(rest) => Some(seq![(s@.subrange(c as int, ke as int), v as int)] + rest),
                        None => None::<Seq<(Seq<u8>, int)>>,
                    })
                },
            },
            Err(_) => {
                let term = find_from(s@, c as int, LF);
                let delim = find_from(s@, c as int, SEMI);
                &&& c < s@.len()
                &&& (delim >= term || parse_value_spec(s@.subrange(delim + 1, term)) is None)
                &&& lines_at(s@, c as int) is None
            },
        },
{
    let len: usize = s.len();
    if c >= len {
        return Ok(None);
    }
    let e = find_byte(s, c, LF);
    let d = find_byte(s, c, SEMI);
    if d >= e {
        return Err(DecodeError);
    }
    let vtext = vstd::slice::slice_subrange(s, d + 1, e);
    match parse_value(vtext) {
        Ok(v) => {
            let next: usize = if e == len {
                len
            } else {
                e + 1
            };
            proof {
                // a decodable value text is nonempty, so the line spends two bytes
                assert(s@.subrange(d + 1, e as int).len() > 0);
                // parsing past the end and parsing at the end both see no records
                assert(lines_at(s@, next as int) == lines_at(s@, e + 1));
            }
            Ok(Some((c, d, v, next)))
        },
        Err(err) => Err(err),
    }
}

} // verus!
