use vstd::prelude::*;

use crate::lines::{lemma_lines_append, lemma_lines_at_len, lines_at, lines_of, next_line, LF};
use crate::model::{lemma_table_append, lemma_table_of_push, table_of};
use crate::table::AggTable;
use crate::DecodeError;

verus! {

/// Number of slots in the tables the aggregation entry points build.
pub const TABLE_SIZE: usize = 131072;

/// Back-to-back spans of the input reassemble it exactly.
pub proof fn lemma_segments_reassemble(s: Seq<u8>, lo: int, mid: int, hi: int)
    requires
        0 <= lo <= mid <= hi <= s.len(),
    ensures
        s.subrange(lo, mid) + s.subrange(mid, hi) == s.subrange(lo, hi),
{
    assert(s.subrange(lo, mid) + s.subrange(mid, hi) =~= s.subrange(lo, hi));
}

/// Aggregates every record of `input` into one table of `capacity`
/// slots, reading lines in file order. Returns `Ok` exactly when every
/// line has a delimiter and a decodable value; the table then holds each
/// key's summary, and `total` the number of lines.
pub fn aggregate_with_capacity(input: &[u8], capacity: usize) -> (r: Result<AggTable, DecodeError>)
    requires
        capacity >= 1,
    ensures
        match r {
            Ok(t) => lines_of(input@) is Some && t.wf() && t@ == table_of(
                lines_of(input@).unwrap(),
            ) && t.cap() == capacity && t.total == lines_of(input@).unwrap().len(),
            Err(_) => lines_of(input@) is None,
        },
{
    let mut t = AggTable::new(capacity);
    let ghost mut processed: Seq<(Seq<u8>, int)> = Seq::empty();
    let mut c: usize = 0;
    proof {
        if lines_at(input@, 0) is Some {
            assert(Seq::<(Seq<u8>, int)>::empty() + lines_at(input@, 0).unwrap() =~= lines_at(
                input@,
                0,
            ).unwrap());
        }
    }
    loop
        invariant
            capacity >= 1,
            t.wf(),
            t.cap() == capacity,
            c <= input@.len(),
            t@ == table_of(processed),
            t.total == processed.len(),
            2 * processed.len() <= c,
            lines_of(input@) == (match lines_at(input@, c as int) {
                Some(rest) => Some(processed + rest),
                None => None::<Seq<(Seq<u8>, int)>>,
            }),
        decreases input@.len() + 1 - c,
    {
        match next_line(input, c) {
            Ok(opt) => match opt {
                None => {
                    proof {
                        assert(processed + Seq::<(Seq<u8>, int)>::empty() =~= processed);
                    }
                    return Ok(t);
                },
                Some((ks, ke, v, next)) => {
                    let key = vstd::slice::slice_subrange(input, ks, ke);
                    proof {
                        lemma_table_of_push(processed, key@, v as int);
                    }
                    t.upsert(key, v);
                    proof {
                        let rec = (input@.subrange(ks as int, ke as int), v as int);
                        match lines_at(input@, next as int) {
                            Some(rest) => {
                                assert(processed + (seq![rec] + rest) =~= processed.push(rec)
                                    + rest);
                            },
                            None => {},
                        }
                        processed = processed.push(rec);
                    }
                    c = next;
                },
            },
            Err(e) => {
                return Err(e);
            },
        }
    }
}

/// Aggregates every record of `input` into one table: a single pass in
/// file order over the whole input.
pub fn aggregate(input: &[u8]) -> (r: Result<AggTable, DecodeError>)
    ensures
        match r {
            Ok(t) => lines_of(input@) is Some && t.wf() && t@ == table_of(
                lines_of(input@).unwrap(),
            ) && t.cap() == TABLE_SIZE && t.total == lines_of(input@).unwrap().len(),
            Err(_) => lines_of(input@) is None,
        },
{
    aggregate_with_capacity(input, TABLE_SIZE)
}

/// Where the cut for boundary `x` would ideally fall: `x` equal-size
/// chunks in, clipped between the previous boundary and the input's end.
pub open spec fn ideal_cut(len: int, count: int, x: int, prev: int) -> int {
    let raw = x * (len / count);
    if raw < prev {
        prev
    } else if raw > len {
        len
    } else {
        raw
    }
}

/// Cuts `[0, input.len()]` into `count` back-to-back spans of roughly
/// equal size, moving each interior boundary backward from its ideal cut
/// to just after the nearest line feed, so no span starts inside a line;
/// a span with no line feed to cut at collapses into its neighbour.
/// Returns the `count + 1` boundaries.
#[verifier::rlimit(60)]
pub fn partition(input: &[u8], count: usize) -> (bounds: Vec<usize>)
    requires
        1 <= count < usize::MAX,
    ensures
        bounds@.len() == count + 1,
        bounds@[0] == 0,
        bounds@[count as int] == input@.len(),
        forall|x: int| 0 <= x < count ==> #[trigger] bounds@[x] <= bounds@[x + 1],
        forall|x: int| 0 <= x <= count ==> #[trigger] bounds@[x] <= input@.len(),
        forall|x: int|
            0 <= x < count ==> (#[trigger] bounds@[x] == 0 || input@[bounds@[x] - 1] == LF),
        forall|x: int|
            1 <= x < count ==> #[trigger] bounds@[x] <= ideal_cut(
                input@.len() as int,
                count as int,
                x,
                bounds@[x - 1] as int,
            ),
        forall|x: int, q: int|
            #![trigger bounds@[x], input@[q]]
            1 <= x < count && bounds@[x] <= q < ideal_cut(
                input@.len() as int,
                count as int,
                x,
                bounds@[x - 1] as int,
            ) ==> input@[q] != LF,
{
    let len = input.len();
    let mut bounds: Vec<usize> = Vec::new();
    bounds.push(0);
    let mut i: usize = 1;
    while i < count
        invariant
            1 <= i <= count,
            len == input@.len(),
            bounds@.len() == i,
            bounds@[0] == 0,
            forall|x: int| 0 <= x < i - 1 ==> #[trigger] bounds@[x] <= bounds@[x + 1],
            forall|x: int| 0 <= x < i ==> #[trigger] bounds@[x] <= len,
            forall|x: int| 0 <= x < i ==> (#[trigger] bounds@[x] == 0 || input@[bounds@[x] - 1]
                == LF),
            forall|x: int|
                1 <= x < i ==> #[trigger] bounds@[x] <= ideal_cut(
                    len as int,
                    count as int,
                    x,
                    bounds@[x - 1] as int,
                ),
            forall|x: int, q: int|
                #![trigger bounds@[x], input@[q]]
                1 <= x < i && bounds@[x] <= q < ideal_cut(
                    len as int,
                    count as int,
                    x,
                    bounds@[x - 1] as int,
                ) ==> input@[q] != LF,
        decreases count - i,
    {
        let prev = bounds[i - 1];
        let chunk = len / count;
        proof {
            assert((i as int) * (chunk as int) <= len as int) by (nonlinear_arith)
                requires
                    1 <= count as int,
                    i as int <= count as int,
                    chunk as int == len as int / count as int,
                    len as int >= 0,
            ;
        }
        let ideal = i * chunk;
        let b: usize = if ideal < prev {
            prev
        } else {
            if ideal > len {
                len
            } else {
                ideal
            }
        };
        proof {
            assert(b as int == ideal_cut(len as int, count as int, i as int, prev as int));
        }
        let mut p: usize = b;
        while p > prev && input[p - 1] != LF
            invariant
                prev <= p <= b <= len,
                len == input@.len(),
                forall|q: int| p <= q < b ==> #[trigger] input@[q] != LF,
            decreases p,
        {
            p = p - 1;
        }
        let cut: usize = if p > prev {
            p
        } else {
            prev
        };
        let ghost bounds0 = bounds@;
        bounds.push(cut);
        i = i + 1;
        proof {
            assert(forall|x: int| 0 <= x < bounds0.len() ==> #[trigger] bounds@[x] == bounds0[x]);
            assert(bounds@[i - 1] == cut);
        }
    }
    bounds.push(len);
    proof {
        assert(bounds@[count as int] == len);
        assert(bounds@[0] == 0);
    }
    bounds
}

/// Aggregates `input` in `count` line-aligned spans, one table per span,
/// then merges the per-span tables slot by slot. The result is the same
/// table, key for key, as one single pass over the whole input, whatever
/// `count` is and in whatever order the spans were handed out.
#[verifier::rlimit(60)]
pub fn aggregate_segments(input: &[u8], count: usize) -> (r: Result<AggTable, DecodeError>)
    requires
        1 <= count < usize::MAX,
    ensures
        match r {
            Ok(t) => lines_of(input@) is Some && t.wf() && t@ == table_of(
                lines_of(input@).unwrap(),
            ) && t.cap() == TABLE_SIZE && t.total == lines_of(input@).unwrap().len(),
            Err(_) => lines_of(input@) is None,
        },
{
    let len = input.len();
    let bounds = partition(input, count);
    let mut acc = AggTable::new(TABLE_SIZE);
    let ghost mut done: Seq<(Seq<u8>, int)> = Seq::empty();
    proof {
        assert(input@.subrange(0, 0) =~= Seq::<u8>::empty());
        assert(lines_of(input@.subrange(0, 0)) == Some(Seq::<(Seq<u8>, int)>::empty()));
        assert(acc@ =~= table_of(done));
    }
    let mut i: usize = 0;
    while i < count
        invariant
            1 <= count < usize::MAX,
            len == input@.len(),
            bounds@.len() == count + 1,
            bounds@[0] == 0,
            bounds@[count as int] == len,
            forall|x: int| 0 <= x < count ==> #[trigger] bounds@[x] <= bounds@[x + 1],
            forall|x: int| 0 <= x <= count ==> #[trigger] bounds@[x] <= len,
            forall|x: int|
                0 <= x < count ==> (#[trigger] bounds@[x] == 0 || input@[bounds@[x] - 1] == LF),
            i <= count,
            acc.wf(),
            acc.cap() == TABLE_SIZE,
            lines_of(input@.subrange(0, bounds@[i as int] as int)) == Some(done),
            acc@ == table_of(done),
            acc.total == done.len(),
        decreases count - i,
    {
        let lo = bounds[i];
        let hi = bounds[i + 1];
        let seg = vstd::slice::slice_subrange(input, lo, hi);
        let ghost p1 = input@.subrange(0, lo as int);
        let ghost p2 = input@.subrange(lo as int, hi as int);
        proof {
            lemma_segments_reassemble(input@, 0, lo as int, hi as int);
        }
        match aggregate(seg) {
            Ok(ti) => {
                proof {
                    lemma_lines_append(p1, p2, 0);
                    let segl = lines_of(p2).unwrap();
                    lemma_table_append(done, segl);
                    lemma_lines_at_len(p1, 0);
                    lemma_lines_at_len(p2, 0);
                    assert(2 * (done.len() + segl.len()) <= hi as int + 4);
                }
                acc.merge(ti);
                proof {
                    done = done + lines_of(p2).unwrap();
                }
            },
            Err(e) => {
                proof {
                    lemma_lines_append(p1, p2, 0);
                    assert(lines_of(input@.subrange(0, hi as int)) is None);
                    if hi < len {
                        lemma_segments_reassemble(input@, 0, hi as int, len as int);
                        lemma_lines_append(
                            input@.subrange(0, hi as int),
                            input@.subrange(hi as int, len as int),
                            0,
                        );
                        assert(input@.subrange(0, len as int) =~= input@);
                    } else {
                        assert(input@.subrange(0, hi as int) =~= input@);
                    }
                }
                return Err(e);
            },
        }
        i = i + 1;
    }
    proof {
        assert(input@.subrange(0, len as int) =~= input@);
    }
    Ok(acc)
}

} // verus!
