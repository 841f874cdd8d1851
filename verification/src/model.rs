use vstd::prelude::*;

use crate::value::VAL_LIMIT;

verus! {

/// The running summary held for one key: least and greatest value seen,
/// their arithmetic sum, and how many lines carried the key.
pub ghost struct Stats {
    pub min: int,
    pub max: int,
    pub sum: int,
    pub count: nat,
}

/// The summary of a single value.
pub open spec fn stats_of(v: int) -> Stats {
    Stats { min: v, max: v, sum: v, count: 1 }
}

/// Folds two summaries of the same key into one.
pub open spec fn combine_stats(a: Stats, b: Stats) -> Stats {
    Stats {
        min: if a.min <= b.min {
            a.min
        } else {
            b.min
        },
        max: if a.max >= b.max {
            a.max
        } else {
            b.max
        },
        sum: a.sum + b.sum,
        count: (a.count + b.count) as nat,
    }
}

/// A summary that some run of values within `VAL_LIMIT` could produce.
pub open spec fn wf_stats(st: Stats) -> bool {
    &&& st.count >= 1
    &&& -VAL_LIMIT <= st.min <= st.max <= VAL_LIMIT
    &&& -(st.count as int) * VAL_LIMIT <= st.sum <= (st.count as int) * VAL_LIMIT
}

/// Folds one summary for key `k` into a table.
pub open spec fn upd_stats(m: Map<Seq<u8>, Stats>, k: Seq<u8>, st: Stats) -> Map<Seq<u8>, Stats> {
    if m.contains_key(k) {
        m.insert(k, combine_stats(m[k], st))
    } else {
        m.insert(k, st)
    }
}

/// The table that a record sequence builds, folding records left to right.
pub open spec fn table_of(rs: Seq<(Seq<u8>, int)>) -> Map<Seq<u8>, Stats>
    decreases rs.len(),
{
    if rs.len() == 0 {
        Map::empty()
    } else {
        upd_stats(table_of(rs.drop_last()), rs.last().0, stats_of(rs.last().1))
    }
}

/// Slot-by-slot merge of two tables: a key held by both is combined, a
/// key held by one is kept.
pub open spec fn merge_tables(m1: Map<Seq<u8>, Stats>, m2: Map<Seq<u8>, Stats>) -> Map<
    Seq<u8>,
    Stats,
> {
    Map::new(
        |k: Seq<u8>| m1.contains_key(k) || m2.contains_key(k),
        |k: Seq<u8>|
            if m1.contains_key(k) && m2.contains_key(k) {
                combine_stats(m1[k], m2[k])
            } else if m1.contains_key(k) {
                m1[k]
            } else {
                m2[k]
            },
    )
}

/// How many records in `rs` carry key `k`.
pub open spec fn count_for(rs: Seq<(Seq<u8>, int)>, k: Seq<u8>) -> nat
    decreases rs.len(),
{
    if rs.len() == 0 {
        0
    } else {
        (count_for(rs.drop_last(), k) + if rs.last().0 == k {
            1nat
        } else {
            0nat
        }) as nat
    }
}

/// The arithmetic sum of the values of the records in `rs` that carry key `k`.
pub open spec fn sum_for(rs: Seq<(Seq<u8>, int)>, k: Seq<u8>) -> int
    decreases rs.len(),
{
    if rs.len() == 0 {
        0
    } else {
        sum_for(rs.drop_last(), k) + if rs.last().0 == k {
            rs.last().1
        } else {
            0
        }
    }
}

/// Folding one more record only touches that record's key.
pub proof fn lemma_table_of_push(rs: Seq<(Seq<u8>, int)>, k: Seq<u8>, v: int)
    ensures
        table_of(rs.push((k, v))) == upd_stats(table_of(rs), k, stats_of(v)),
{
    assert(rs.push((k, v)).drop_last() =~= rs);
    assert(rs.push((k, v)).last() == (k, v));
}

/// A key is in the table exactly when some record carries it, and then
/// its sum adds up every value recorded for that key and its count is
/// the number of lines that carried it.
pub proof fn lemma_sum_count(rs: Seq<(Seq<u8>, int)>, k: Seq<u8>)
    ensures
        table_of(rs).contains_key(k) <==> count_for(rs, k) > 0,
        table_of(rs).contains_key(k) ==> table_of(rs)[k].sum == sum_for(rs, k) && table_of(
            rs,
        )[k].count == count_for(rs, k),
        count_for(rs, k) == 0 ==> sum_for(rs, k) == 0,
        count_for(rs, k) <= rs.len(),
    decreases rs.len(),
{
    if rs.len() > 0 {
        lemma_sum_count(rs.drop_last(), k);
    }
}

/// Folding a summary for one key never alters any other key's entry —
/// in particular not that of a distinct key sharing its table slot.
pub proof fn lemma_upd_stats_independent(
    m: Map<Seq<u8>, Stats>,
    k1: Seq<u8>,
    k2: Seq<u8>,
    st: Stats,
)
    requires
        k1 != k2,
    ensures
        upd_stats(m, k2, st).contains_key(k1) == m.contains_key(k1),
        m.contains_key(k1) ==> upd_stats(m, k2, st)[k1] == m[k1],
{
}

/// A key's min and max are values that lines carrying the key recorded,
/// and they bound every value recorded for that key.
pub proof fn lemma_min_max(rs: Seq<(Seq<u8>, int)>, k: Seq<u8>)
    requires
        table_of(rs).contains_key(k),
    ensures
        exists|i: int| 0 <= i < rs.len() && #[trigger] rs[i] == (k, table_of(rs)[k].min),
        exists|i: int| 0 <= i < rs.len() && #[trigger] rs[i] == (k, table_of(rs)[k].max),
        forall|i: int|
            0 <= i < rs.len() && (#[trigger] rs[i]).0 == k ==> table_of(rs)[k].min <= rs[i].1
                <= table_of(rs)[k].max,
    decreases rs.len(),
{
    let rest = rs.drop_last();
    let st = table_of(rs)[k];
    if rs.last().0 == k {
        if table_of(rest).contains_key(k) {
            lemma_min_max(rest, k);
            let prev = table_of(rest)[k];
            assert forall|i: int|
                0 <= i < rs.len() && (#[trigger] rs[i]).0 == k implies st.min <= rs[i].1
                <= st.max by {
                if i < rest.len() {
                    assert(rest[i] == rs[i]);
                }
            }
            if st.min == rs.last().1 {
                assert(rs[rs.len() - 1] == (k, st.min));
            } else {
                let i = choose|i: int| 0 <= i < rest.len() && #[trigger] rest[i] == (k, prev.min);
                assert(rs[i] == (k, st.min));
            }
            if st.max == rs.last().1 {
                assert(rs[rs.len() - 1] == (k, st.max));
            } else {
                let i = choose|i: int| 0 <= i < rest.len() && #[trigger] rest[i] == (k, prev.max);
                assert(rs[i] == (k, st.max));
            }
        } else {
            lemma_sum_count(rest, k);
            assert forall|i: int|
                0 <= i < rs.len() && (#[trigger] rs[i]).0 == k implies st.min <= rs[i].1
                <= st.max by {
                if i < rest.len() {
                    assert(rest[i] == rs[i]);
                    lemma_count_witness(rest, k, i);
                }
            }
            assert(rs[rs.len() - 1] == (k, st.min));
            assert(rs[rs.len() - 1] == (k, st.max));
        }
    } else {
        lemma_min_max(rest, k);
        assert forall|i: int|
            0 <= i < rs.len() && (#[trigger] rs[i]).0 == k implies st.min <= rs[i].1 <= st.max by {
            if i < rest.len() {
                assert(rest[i] == rs[i]);
            }
        }
        let i1 = choose|i: int| 0 <= i < rest.len() && #[trigger] rest[i] == (k, st.min);
        assert(rs[i1] == (k, st.min));
        let i2 = choose|i: int| 0 <= i < rest.len() && #[trigger] rest[i] == (k, st.max);
        assert(rs[i2] == (k, st.max));
    }
}

/// A record carrying key `k` makes the count for `k` positive.
proof fn lemma_count_witness(rs: Seq<(Seq<u8>, int)>, k: Seq<u8>, i: int)
    requires
        0 <= i < rs.len(),
        rs[i].0 == k,
    ensures
        count_for(rs, k) > 0,
    decreases rs.len(),
{
    if i < rs.len() - 1 {
        assert(rs.drop_last()[i] == rs[i]);
        lemma_count_witness(rs.drop_last(), k, i);
    }
}

/// Every summary a bounded record run builds is well formed: at least
/// one line, min no greater than max, both within `VAL_LIMIT`, and a sum
/// that the count bounds.
pub proof fn lemma_table_wf(rs: Seq<(Seq<u8>, int)>)
    requires
        forall|i: int| 0 <= i < rs.len() ==> -VAL_LIMIT <= #[trigger] rs[i].1 <= VAL_LIMIT,
    ensures
        forall|k: Seq<u8>| #[trigger] table_of(rs).contains_key(k) ==> wf_stats(table_of(rs)[k]),
    decreases rs.len(),
{
    if rs.len() > 0 {
        assert(forall|i: int|
            0 <= i < rs.drop_last().len() ==> -VAL_LIMIT <= #[trigger] rs.drop_last()[i].1
                <= VAL_LIMIT);
        lemma_table_wf(rs.drop_last());
        let prev = table_of(rs.drop_last());
        let k = rs.last().0;
        let v = rs.last().1;
        assert(-VAL_LIMIT <= v <= VAL_LIMIT);
        if prev.contains_key(k) {
            assert(wf_stats(prev[k]));
            assert(wf_stats(combine_stats(prev[k], stats_of(v)))) by {
                lemma_combine_stats_wf(prev[k], stats_of(v));
            }
        }
    }
}

/// Folding keeps summaries well formed.
pub proof fn lemma_combine_stats_wf(a: Stats, b: Stats)
    requires
        wf_stats(a),
        wf_stats(b),
    ensures
        wf_stats(combine_stats(a, b)),
{
    let c = combine_stats(a, b);
    assert(c.sum <= (c.count as int) * VAL_LIMIT && -(c.count as int) * VAL_LIMIT <= c.sum) by {
        assert((a.count + b.count) * VAL_LIMIT == a.count * VAL_LIMIT + b.count * VAL_LIMIT)
            by (nonlinear_arith);
    }
}

/// Folding two summaries does not depend on their order.
pub proof fn lemma_combine_stats_commutative(a: Stats, b: Stats)
    ensures
        combine_stats(a, b) == combine_stats(b, a),
{
}

/// Folding summaries can be regrouped freely.
pub proof fn lemma_combine_stats_associative(a: Stats, b: Stats, c: Stats)
    ensures
        combine_stats(combine_stats(a, b), c) == combine_stats(a, combine_stats(b, c)),
{
}

/// Merging tables in either order yields the same table.
pub proof fn lemma_merge_commutative(m1: Map<Seq<u8>, Stats>, m2: Map<Seq<u8>, Stats>)
    ensures
        merge_tables(m1, m2) == merge_tables(m2, m1),
{
    assert(merge_tables(m1, m2) =~= merge_tables(m2, m1));
}

/// Merging tables can be regrouped freely.
pub proof fn lemma_merge_associative(
    m1: Map<Seq<u8>, Stats>,
    m2: Map<Seq<u8>, Stats>,
    m3: Map<Seq<u8>, Stats>,
)
    ensures
        merge_tables(merge_tables(m1, m2), m3) == merge_tables(m1, merge_tables(m2, m3)),
{
    assert(merge_tables(merge_tables(m1, m2), m3) =~= merge_tables(m1, merge_tables(m2, m3)));
}

/// The empty table is the unit of merging.
pub proof fn lemma_merge_empty(m: Map<Seq<u8>, Stats>)
    ensures
        merge_tables(m, Map::<Seq<u8>, Stats>::empty()) == m,
        merge_tables(Map::<Seq<u8>, Stats>::empty(), m) == m,
{
    assert(merge_tables(m, Map::<Seq<u8>, Stats>::empty()) =~= m);
    assert(merge_tables(Map::<Seq<u8>, Stats>::empty(), m) =~= m);
}

/// Folding a summary for a key the right table does not hold yet grows
/// the merge of the two tables by exactly that key.
pub proof fn lemma_merge_insert(
    a: Map<Seq<u8>, Stats>,
    m: Map<Seq<u8>, Stats>,
    k: Seq<u8>,
    st: Stats,
)
    requires
        !m.contains_key(k),
    ensures
        merge_tables(a, m.insert(k, st)) == upd_stats(merge_tables(a, m), k, st),
{
    assert(merge_tables(a, m.insert(k, st)) =~= upd_stats(merge_tables(a, m), k, st));
}

/// Aggregating two record runs separately and merging the tables equals
/// aggregating the concatenated run: worker count does not matter.
pub proof fn lemma_table_append(rs1: Seq<(Seq<u8>, int)>, rs2: Seq<(Seq<u8>, int)>)
    ensures
        table_of(rs1 + rs2) == merge_tables(table_of(rs1), table_of(rs2)),
    decreases rs2.len(),
{
    if rs2.len() == 0 {
        assert(rs1 + rs2 =~= rs1);
        lemma_merge_empty(table_of(rs1));
    } else {
        let rest = rs2.drop_last();
        let k = rs2.last().0;
        let st = stats_of(rs2.last().1);
        assert((rs1 + rs2).drop_last() =~= rs1 + rest);
        assert((rs1 + rs2).last() == rs2.last());
        lemma_table_append(rs1, rest);
        let t1 = table_of(rs1);
        let t2 = table_of(rest);
        assert(table_of(rs1 + rs2) == upd_stats(merge_tables(t1, t2), k, st));
        assert(upd_stats(merge_tables(t1, t2), k, st) =~= merge_tables(t1, upd_stats(t2, k, st)));
    }
}

} // verus!
