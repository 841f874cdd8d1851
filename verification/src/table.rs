use vstd::prelude::*;

use crate::model::{combine_stats, merge_tables, stats_of, upd_stats, wf_stats, Stats};
use crate::value::VAL_LIMIT;
use vstd::arithmetic::mul::lemma_mul_inequality;

verus! {

/// The 64-bit FNV-1a offset basis.
pub const FNV_BASIS: u64 = 14695981039346656037;

/// The 64-bit FNV-1a prime.
pub const FNV_PRIME: u64 = 1099511628211;

/// One FNV-1a round: fold a byte into the running hash.
pub open spec fn fnv_step(h: u64, b: u8) -> u64 {
    (((h ^ (b as u64)) as nat * FNV_PRIME as nat) % 0x1_0000_0000_0000_0000nat) as u64
}

/// The running FNV-1a hash of the first `i` bytes of `s`.
pub open spec fn fnv_at(s: Seq<u8>, i: int) -> u64
    decreases i,
{
    if i <= 0 {
        FNV_BASIS
    } else {
        fnv_step(fnv_at(s, i - 1), s[i - 1])
    }
}

/// The FNV-1a hash of a key's bytes.
pub open spec fn fnv_hash(s: Seq<u8>) -> u64 {
    fnv_at(s, s.len() as int)
}

/// The slot a key belongs to in a table of `cap` slots.
pub open spec fn bucket_of(k: Seq<u8>, cap: int) -> int {
    fnv_hash(k) as int % cap
}

/// Computes the FNV-1a hash of `s`.
pub fn hash_bytes(s: &[u8]) -> (h: u64)
    ensures
        h == fnv_hash(s@),
{
    let mut h: u64 = FNV_BASIS;
    let mut i: usize = 0;
    while i < s.len()
        invariant
            i <= s@.len(),
            h == fnv_at(s@, i as int),
        decreases s@.len() - i,
    {
        h = (h ^ (s[i] as u64)).wrapping_mul(FNV_PRIME);
        i = i + 1;
    }
    h
}

/// Compares two byte strings for equality.
pub fn bytes_equal(a: &[u8], b: &[u8]) -> (r: bool)
    ensures
        r <==> a@ == b@,
{
    if a.len() != b.len() {
        return false;
    }
    let mut i: usize = 0;
    while i < a.len()
        invariant
            a@.len() == b@.len(),
            i <= a@.len(),
            forall|j: int| 0 <= j < i ==> a@[j] == b@[j],
        decreases a@.len() - i,
    {
        if a[i] != b[i] {
            return false;
        }
        i = i + 1;
    }
    proof {
        assert(a@ =~= b@);
    }
    true
}

/// One stored record: the key's bytes, owned by the table, and its
/// running summary in tenths.
pub struct Rec {
    pub key: Vec<u8>,
    pub min: i64,
    pub max: i64,
    pub sum: i128,
    pub count: u64,
}

/// The summary a stored record denotes.
pub open spec fn rec_stats(r: Rec) -> Stats {
    Stats { min: r.min as int, max: r.max as int, sum: r.sum as int, count: r.count as nat }
}

/// Total of the counts of the first `j` records of a bucket.
pub open spec fn counts_in_prefix(b: Seq<Rec>, j: int) -> int
    decreases j,
{
    if j <= 0 {
        0
    } else {
        counts_in_prefix(b, j - 1) + b[j - 1].count
    }
}

/// Total of the counts of every record in the first `i` buckets.
pub open spec fn counts_upto(bs: Seq<Vec<Rec>>, i: int) -> int
    decreases i,
{
    if i <= 0 {
        0
    } else {
        counts_upto(bs, i - 1) + counts_in_prefix(bs[i - 1]@, bs[i - 1]@.len() as int)
    }
}

proof fn lemma_cip_agree(b1: Seq<Rec>, b2: Seq<Rec>, j: int)
    requires
        0 <= j,
        forall|x: int| 0 <= x < j ==> b1[x] == b2[x],
    ensures
        counts_in_prefix(b1, j) == counts_in_prefix(b2, j),
    decreases j,
{
    if j > 0 {
        lemma_cip_agree(b1, b2, j - 1);
    }
}

proof fn lemma_cip_nonneg(b: Seq<Rec>, j: int)
    ensures
        counts_in_prefix(b, j) >= 0,
    decreases j,
{
    if j > 0 {
        lemma_cip_nonneg(b, j - 1);
    }
}

proof fn lemma_cip_mono(b: Seq<Rec>, j1: int, j2: int)
    requires
        j1 <= j2,
    ensures
        counts_in_prefix(b, j1) <= counts_in_prefix(b, j2),
    decreases j2,
{
    if j1 <= 0 {
        lemma_cip_nonneg(b, j2);
    } else if j1 < j2 {
        lemma_cip_mono(b, j1, j2 - 1);
    }
}

proof fn lemma_cip_update(b: Seq<Rec>, j: int, r2: Rec, n: int)
    requires
        0 <= j < n <= b.len(),
    ensures
        counts_in_prefix(b.update(j, r2), n) == counts_in_prefix(b, n) - b[j].count + r2.count,
    decreases n,
{
    let bb = b.update(j, r2);
    if j == n - 1 {
        lemma_cip_agree(bb, b, n - 1);
    } else {
        lemma_cip_update(b, j, r2, n - 1);
    }
}

proof fn lemma_cu_agree(bs1: Seq<Vec<Rec>>, bs2: Seq<Vec<Rec>>, i: int)
    requires
        0 <= i,
        forall|x: int| 0 <= x < i ==> bs1[x] == bs2[x],
    ensures
        counts_upto(bs1, i) == counts_upto(bs2, i),
    decreases i,
{
    if i > 0 {
        lemma_cu_agree(bs1, bs2, i - 1);
        assert(bs1[i - 1] == bs2[i - 1]);
    }
}

proof fn lemma_cu_update(bs: Seq<Vec<Rec>>, i: int, b2: Vec<Rec>, m: int)
    requires
        0 <= i < m <= bs.len(),
    ensures
        counts_upto(bs.update(i, b2), m) == counts_upto(bs, m) - counts_in_prefix(
            bs[i]@,
            bs[i]@.len() as int,
        ) + counts_in_prefix(b2@, b2@.len() as int),
    decreases m,
{
    let bs2 = bs.update(i, b2);
    if i == m - 1 {
        lemma_cu_agree(bs2, bs, m - 1);
        assert(bs2[m - 1] == b2);
    } else {
        lemma_cu_update(bs, i, b2, m - 1);
        assert(bs2[m - 1] == bs[m - 1]);
    }
}

proof fn lemma_cu_bound(bs: Seq<Vec<Rec>>, i: int, j: int, m: int)
    requires
        0 <= i < m <= bs.len(),
        0 <= j <= bs[i]@.len(),
    ensures
        counts_upto(bs, i) + counts_in_prefix(bs[i]@, j) <= counts_upto(bs, m),
    decreases m,
{
    if i == m - 1 {
        lemma_cip_mono(bs[i]@, j, bs[i]@.len() as int);
    } else {
        lemma_cu_bound(bs, i, j, m - 1);
        lemma_cip_nonneg(bs[m - 1]@, bs[m - 1]@.len() as int);
    }
}

/// Whether some listed entry carries key `k`.
pub open spec fn has_entry(out: Seq<(Vec<u8>, i64, i64, i128, u64)>, k: Seq<u8>) -> bool {
    exists|x: int| 0 <= x < out.len() && (#[trigger] out[x]).0@ == k
}

/// Whether a record carrying key `k` stands before position `(i, j)` in
/// `t`'s slot-by-slot, record-by-record order.
spec fn seen_key(t: AggTable, i: int, j: int, k: Seq<u8>) -> bool {
    exists|i2: int, j2: int|
        (i2 < i || (i2 == i && j2 < j)) && t.valid_idx(i2, j2) && (#[trigger] t.rec_at(
            i2,
            j2,
        )).key@ == k
}

/// A fixed-capacity hash-indexed table of per-key summaries. A key's
/// slot is its FNV-1a hash reduced modulo the capacity; keys that share
/// a slot are kept apart in that slot's bucket, never blended.
pub struct AggTable {
    pub buckets: Vec<Vec<Rec>>,
    pub total: u64,
}

impl View for AggTable {
    type V = Map<Seq<u8>, Stats>;

    /// The mapping from key bytes to that key's summary.
    open spec fn view(&self) -> Map<Seq<u8>, Stats> {
        Map::new(|k: Seq<u8>| self.has_key(k), |k: Seq<u8>| self.stats_for(k))
    }
}

impl AggTable {
    /// Number of slots, fixed at construction.
    pub open spec fn cap(self) -> int {
        self.buckets@.len() as int
    }

    pub open spec fn rec_at(self, i: int, j: int) -> Rec {
        self.buckets@[i]@[j]
    }

    pub open spec fn valid_idx(self, i: int, j: int) -> bool {
        0 <= i < self.cap() && 0 <= j < self.buckets@[i]@.len()
    }

    /// Total of the counts of every record in the table.
    pub open spec fn counts(self) -> int {
        counts_upto(self.buckets@, self.cap())
    }

    /// The table's invariant: at least one slot; every record well
    /// formed, counted into `total`, and stored in its key's slot; no
    /// two records of a slot carrying the same key; and `total` the
    /// exact number of lines folded in.
    pub open spec fn wf(self) -> bool {
        &&& self.cap() >= 1
        &&& self.total as int == self.counts()
        &&& forall|i: int, j: int|
            self.valid_idx(i, j) ==> {
                let r = #[trigger] self.rec_at(i, j);
                &&& wf_stats(rec_stats(r))
                &&& r.count <= self.total
                &&& bucket_of(r.key@, self.cap()) == i
            }
        &&& forall|i: int, j1: int, j2: int|
            self.valid_idx(i, j1) && self.valid_idx(i, j2) && j1 != j2 ==> (#[trigger] self.rec_at(
                i,
                j1,
            )).key@ != (#[trigger] self.rec_at(i, j2)).key@
    }

    pub open spec fn has_key(self, k: Seq<u8>) -> bool {
        exists|j: int|
            self.valid_idx(bucket_of(k, self.cap()), j) && (#[trigger] self.rec_at(
                bucket_of(k, self.cap()),
                j,
            )).key@ == k
    }

    pub open spec fn stats_for(self, k: Seq<u8>) -> Stats {
        let bi = bucket_of(k, self.cap());
        let j = choose|j: int|
            self.valid_idx(bi, j) && (#[trigger] self.rec_at(bi, j)).key@ == k;
        rec_stats(self.rec_at(bi, j))
    }

    /// A record that carries `k` is the one record `view` reads for `k`.
    pub proof fn lemma_stats_at(self, k: Seq<u8>, j: int)
        requires
            self.wf(),
            self.valid_idx(bucket_of(k, self.cap()), j),
            self.rec_at(bucket_of(k, self.cap()), j).key@ == k,
        ensures
            self.has_key(k),
            self.stats_for(k) == rec_stats(self.rec_at(bucket_of(k, self.cap()), j)),
    {
        let bi = bucket_of(k, self.cap());
        assert(self.has_key(k));
        let jj = choose|jj: int|
            self.valid_idx(bi, jj) && (#[trigger] self.rec_at(bi, jj)).key@ == k;
        assert(jj == j);
    }

    /// Creates an empty table with `capacity` slots.
    pub fn new(capacity: usize) -> (t: AggTable)
        requires
            capacity >= 1,
        ensures
            t.wf(),
            t@ == Map::<Seq<u8>, Stats>::empty(),
            t.cap() == capacity,
            t.total == 0,
    {
        let mut buckets: Vec<Vec<Rec>> = Vec::new();
        let mut i: usize = 0;
        while i < capacity
            invariant
                i <= capacity,
                buckets@.len() == i,
                forall|b: int| 0 <= b < i ==> #[trigger] buckets@[b]@.len() == 0,
                counts_upto(buckets@, i as int) == 0,
            decreases capacity - i,
        {
            let ghost bs0 = buckets@;
            buckets.push(Vec::new());
            i = i + 1;
            proof {
                lemma_cu_agree(buckets@, bs0, i - 1);
            }
        }
        let t = AggTable { buckets, total: 0 };
        proof {
            assert forall|k: Seq<u8>| !t.has_key(k) by {}
            assert(t@ =~= Map::<Seq<u8>, Stats>::empty());
        }
        t
    }

    /// Scans slot `bi` for a record that carries `key`.
    fn find_in_bucket(&self, bi: usize, key: &[u8]) -> (r: Option<usize>)
        requires
            bi < self.buckets@.len(),
        ensures
            match r {
                Some(j) => j < self.buckets@[bi as int]@.len() && self.rec_at(
                    bi as int,
                    j as int,
                ).key@ == key@,
                None => forall|jj: int|
                    0 <= jj < self.buckets@[bi as int]@.len() ==> self.rec_at(
                        bi as int,
                        jj,
                    ).key@ != key@,
            },
    {
        let blen = self.buckets[bi].len();
        let mut j: usize = 0;
        while j < blen
            invariant
                bi < self.buckets@.len(),
                blen == self.buckets@[bi as int]@.len(),
                j <= blen,
                forall|jj: int| 0 <= jj < j ==> self.rec_at(bi as int, jj).key@ != key@,
            decreases blen - j,
        {
            if bytes_equal(self.buckets[bi][j].key.as_slice(), key) {
                return Some(j);
            }
            j = j + 1;
        }
        None
    }

    /// Folds a whole summary for `key` into the table: a new key takes
    /// the summary as given; a key already present has the two combined.
    pub fn absorb(&mut self, key: &[u8], vmin: i64, vmax: i64, vsum: i128, vcount: u64)
        requires
            old(self).wf(),
            vmin <= vmax,
            -VAL_LIMIT <= vmin,
            vmax <= VAL_LIMIT,
            1 <= vcount,
            -(vcount as int) * (VAL_LIMIT as int) <= vsum as int,
            vsum as int <= (vcount as int) * (VAL_LIMIT as int),
            old(self).total + vcount <= u64::MAX,
        ensures
            final(self).wf(),
            final(self)@ == upd_stats(
                old(self)@,
                key@,
                Stats { min: vmin as int, max: vmax as int, sum: vsum as int, count: vcount as nat },
            ),
            final(self).total == old(self).total + vcount,
            final(self).cap() == old(self).cap(),
    {
        let ghost st = Stats {
            min: vmin as int,
            max: vmax as int,
            sum: vsum as int,
            count: vcount as nat,
        };
        let h = hash_bytes(key);
        let bi = (h % (self.buckets.len() as u64)) as usize;
        proof {
            assert(bi == bucket_of(key@, self.cap()));
        }
        match self.find_in_bucket(bi, key) {
            Some(j) => {
                proof {
                    old(self).lemma_stats_at(key@, j as int);
                    let oldrec = old(self).rec_at(bi as int, j as int);
                    assert(wf_stats(rec_stats(oldrec)));
                    // the widened sum still fits an i128
                    lemma_mul_inequality(
                        oldrec.count + vcount,
                        u64::MAX as int,
                        VAL_LIMIT as int,
                    );
                }
                let inner = &mut self.buckets[bi];
                let r = &mut inner[j];
                if vmin < r.min {
                    r.min = vmin;
                }
                if vmax > r.max {
                    r.max = vmax;
                }
                r.sum = r.sum + vsum;
                r.count = r.count + vcount;
                self.total = self.total + vcount;
                proof {
                    let oldt = *old(self);
                    let k = key@;
                    assert(self.rec_at(bi as int, j as int).key@ == k);
                    assert(rec_stats(self.rec_at(bi as int, j as int)) == combine_stats(
                        rec_stats(oldt.rec_at(bi as int, j as int)),
                        st,
                    ));
                    let oldb = oldt.buckets@[bi as int]@;
                    let newb = self.buckets@[bi as int]@;
                    assert(newb == oldb.update(j as int, self.rec_at(bi as int, j as int)));
                    lemma_cip_update(
                        oldb,
                        j as int,
                        self.rec_at(bi as int, j as int),
                        oldb.len() as int,
                    );
                    assert(self.buckets@ =~= oldt.buckets@.update(
                        bi as int,
                        self.buckets@[bi as int],
                    ));
                    lemma_cu_update(
                        oldt.buckets@,
                        bi as int,
                        self.buckets@[bi as int],
                        oldt.buckets@.len() as int,
                    );
                    assert(self.counts() == oldt.counts() + vcount);
                    assert forall|i2: int, j2: int| self.valid_idx(i2, j2) implies {
                        let r2 = #[trigger] self.rec_at(i2, j2);
                        &&& wf_stats(rec_stats(r2))
                        &&& r2.count <= self.total
                        &&& bucket_of(r2.key@, self.cap()) == i2
                    } by {
                        if i2 == bi as int && j2 == j as int {
                            crate::model::lemma_combine_stats_wf(
                                rec_stats(oldt.rec_at(bi as int, j as int)),
                                st,
                            );
                        } else {
                            assert(self.rec_at(i2, j2) == oldt.rec_at(i2, j2));
                            assert(oldt.valid_idx(i2, j2));
                        }
                    }
                    assert forall|i2: int, j1: int, j2: int|
                        self.valid_idx(i2, j1) && self.valid_idx(i2, j2) && j1 != j2 implies (
                    #[trigger] self.rec_at(i2, j1)).key@ != (#[trigger] self.rec_at(
                        i2,
                        j2,
                    )).key@ by {
                        assert(self.rec_at(i2, j1).key@ == oldt.rec_at(i2, j1).key@);
                        assert(self.rec_at(i2, j2).key@ == oldt.rec_at(i2, j2).key@);
                        assert(oldt.valid_idx(i2, j1) && oldt.valid_idx(i2, j2));
                    }
                    assert(self.wf());
                    self.lemma_stats_at(k, j as int);
                    assert forall|k2: Seq<u8>| k2 != k implies (self.has_key(k2)
                        <==> oldt.has_key(k2)) by {
                        let bb = bucket_of(k2, self.cap());
                        if self.has_key(k2) {
                            let j2 = choose|j2: int|
                                self.valid_idx(bb, j2) && (#[trigger] self.rec_at(bb, j2)).key@
                                    == k2;
                            assert(oldt.rec_at(bb, j2).key@ == k2);
                            assert(oldt.has_key(k2));
                        }
                        if oldt.has_key(k2) {
                            let j2 = choose|j2: int|
                                oldt.valid_idx(bb, j2) && (#[trigger] oldt.rec_at(bb, j2)).key@
                                    == k2;
                            assert(self.rec_at(bb, j2).key@ == k2);
                            assert(self.has_key(k2));
                        }
                    }
                    assert forall|k2: Seq<u8>| k2 != k && self.has_key(k2) implies self.stats_for(
                        k2,
                    ) == oldt.stats_for(k2) by {
                        let bb = bucket_of(k2, self.cap());
                        let j2 = choose|j2: int|
                            self.valid_idx(bb, j2) && (#[trigger] self.rec_at(bb, j2)).key@ == k2;
                        self.lemma_stats_at(k2, j2);
                        assert(oldt.rec_at(bb, j2).key@ == k2);
                        oldt.lemma_stats_at(k2, j2);
                        assert(self.rec_at(bb, j2) == oldt.rec_at(bb, j2));
                    }
                    assert(self@ =~= upd_stats(oldt@, k, st));
                }
            },
            None => {
                let rec = Rec {
                    key: vstd::slice::slice_to_vec(key),
                    min: vmin,
                    max: vmax,
                    sum: vsum,
                    count: vcount,
                };
                let inner = &mut self.buckets[bi];
                let ghost oldlen = inner@.len();
                inner.push(rec);
                self.total = self.total + vcount;
                proof {
                    let oldt = *old(self);
                    let k = key@;
                    assert(!oldt.has_key(k));
                    assert(self.rec_at(bi as int, oldlen as int).key@ == k);
                    let oldb = oldt.buckets@[bi as int]@;
                    let newb = self.buckets@[bi as int]@;
                    lemma_cip_agree(newb, oldb, oldlen as int);
                    assert(counts_in_prefix(newb, newb.len() as int) == counts_in_prefix(
                        oldb,
                        oldb.len() as int,
                    ) + vcount);
                    assert(self.buckets@ =~= oldt.buckets@.update(
                        bi as int,
                        self.buckets@[bi as int],
                    ));
                    lemma_cu_update(
                        oldt.buckets@,
                        bi as int,
                        self.buckets@[bi as int],
                        oldt.buckets@.len() as int,
                    );
                    assert(self.counts() == oldt.counts() + vcount);
                    assert forall|i2: int, j2: int| self.valid_idx(i2, j2) implies {
                        let r2 = #[trigger] self.rec_at(i2, j2);
                        &&& wf_stats(rec_stats(r2))
                        &&& r2.count <= self.total
                        &&& bucket_of(r2.key@, self.cap()) == i2
                    } by {
                        if !(i2 == bi as int && j2 == oldlen as int) {
                            assert(self.rec_at(i2, j2) == oldt.rec_at(i2, j2));
                            assert(oldt.valid_idx(i2, j2));
                        }
                    }
                    assert forall|i2: int, j1: int, j2: int|
                        self.valid_idx(i2, j1) && self.valid_idx(i2, j2) && j1 != j2 implies (
                    #[trigger] self.rec_at(i2, j1)).key@ != (#[trigger] self.rec_at(
                        i2,
                        j2,
                    )).key@ by {
                        if i2 == bi as int {
                            if j1 == oldlen as int {
                                assert(oldt.valid_idx(i2, j2));
                                assert(oldt.rec_at(i2, j2).key@ != k);
                            } else if j2 == oldlen as int {
                                assert(oldt.valid_idx(i2, j1));
                                assert(oldt.rec_at(i2, j1).key@ != k);
                            } else {
                                assert(oldt.valid_idx(i2, j1) && oldt.valid_idx(i2, j2));
                            }
                        } else {
                            assert(oldt.valid_idx(i2, j1) && oldt.valid_idx(i2, j2));
                        }
                    }
                    assert(self.wf());
                    self.lemma_stats_at(k, oldlen as int);
                    assert(rec_stats(self.rec_at(bi as int, oldlen as int)) == st);
                    assert forall|k2: Seq<u8>| k2 != k implies (self.has_key(k2)
                        <==> oldt.has_key(k2)) by {
                        let bb = bucket_of(k2, self.cap());
                        if self.has_key(k2) {
                            let j2 = choose|j2: int|
                                self.valid_idx(bb, j2) && (#[trigger] self.rec_at(bb, j2)).key@
                                    == k2;
                            assert(oldt.rec_at(bb, j2).key@ == k2);
                            assert(oldt.has_key(k2));
                        }
                        if oldt.has_key(k2) {
                            let j2 = choose|j2: int|
                                oldt.valid_idx(bb, j2) && (#[trigger] oldt.rec_at(bb, j2)).key@
                                    == k2;
                            assert(self.rec_at(bb, j2).key@ == k2);
                            assert(self.has_key(k2));
                        }
                    }
                    assert forall|k2: Seq<u8>| k2 != k && self.has_key(k2) implies self.stats_for(
                        k2,
                    ) == oldt.stats_for(k2) by {
                        let bb = bucket_of(k2, self.cap());
                        let j2 = choose|j2: int|
                            self.valid_idx(bb, j2) && (#[trigger] self.rec_at(bb, j2)).key@ == k2;
                        self.lemma_stats_at(k2, j2);
                        assert(oldt.rec_at(bb, j2).key@ == k2);
                        oldt.lemma_stats_at(k2, j2);
                        assert(self.rec_at(bb, j2) == oldt.rec_at(bb, j2));
                    }
                    assert(self@ =~= upd_stats(oldt@, k, st));
                }
            },
        }
    }

    /// Records one line's value for `key`: a new key opens a record
    /// seeded with the value; an existing key has its min, max, sum and
    /// count updated in place.
    pub fn upsert(&mut self, key: &[u8], value: i64)
        requires
            old(self).wf(),
            -VAL_LIMIT <= value <= VAL_LIMIT,
            old(self).total < u64::MAX,
        ensures
            final(self).wf(),
            final(self)@ == upd_stats(old(self)@, key@, stats_of(value as int)),
            final(self).total == old(self).total + 1,
            final(self).cap() == old(self).cap(),
    {
        self.absorb(key, value, value, value as i128, 1);
    }

    /// Consumes `other`, folding each of its records into `self`: the
    /// slot-by-slot merge of the two tables. A key held by both ends up
    /// combined, a key held by one is kept as it was.
    pub fn merge(&mut self, other: AggTable)
        requires
            old(self).wf(),
            other.wf(),
            old(self).total + other.total <= u64::MAX,
        ensures
            final(self).wf(),
            final(self)@ == merge_tables(old(self)@, other@),
            final(self).total == old(self).total + other.total,
            final(self).cap() == old(self).cap(),
    {
        let ghost mut m_done = Map::<Seq<u8>, Stats>::empty();
        proof {
            crate::model::lemma_merge_empty(old(self)@);
        }
        let ocap = other.buckets.len();
        let mut i: usize = 0;
        while i < ocap
            invariant
                self.wf(),
                other.wf(),
                ocap == other.buckets@.len(),
                i <= ocap,
                self.cap() == old(self).cap(),
                old(self).total + other.total <= u64::MAX,
                self.total as int == old(self).total + counts_upto(other.buckets@, i as int),
                self@ == merge_tables(old(self)@, m_done),
                forall|k: Seq<u8>| #[trigger]
                    m_done.contains_key(k) ==> other@.contains_key(k) && m_done[k] == other@[k]
                        && seen_key(other, i as int, 0, k),
                forall|i2: int, j2: int|
                    i2 < i && other.valid_idx(i2, j2) ==> m_done.contains_key(
                        (#[trigger] other.rec_at(i2, j2)).key@,
                    ),
            decreases ocap - i,
        {
            let blen = other.buckets[i].len();
            let mut j: usize = 0;
            while j < blen
                invariant
                    self.wf(),
                    other.wf(),
                    ocap == other.buckets@.len(),
                    i < ocap,
                    blen == other.buckets@[i as int]@.len(),
                    j <= blen,
                    self.cap() == old(self).cap(),
                    old(self).total + other.total <= u64::MAX,
                    self.total as int == old(self).total + counts_upto(other.buckets@, i as int)
                        + counts_in_prefix(other.buckets@[i as int]@, j as int),
                    self@ == merge_tables(old(self)@, m_done),
                    forall|k: Seq<u8>| #[trigger]
                        m_done.contains_key(k) ==> other@.contains_key(k) && m_done[k] == other@[k]
                            && seen_key(other, i as int, j as int, k),
                    forall|i2: int, j2: int|
                        (i2 < i || (i2 == i && j2 < j)) && other.valid_idx(i2, j2)
                            ==> m_done.contains_key((#[trigger] other.rec_at(i2, j2)).key@),
                decreases blen - j,
            {
                let r = &other.buckets[i][j];
                proof {
                    assert(other.valid_idx(i as int, j as int));
                    assert(wf_stats(rec_stats(other.rec_at(i as int, j as int))));
                    lemma_cu_bound(other.buckets@, i as int, j as int + 1, ocap as int);
                }
                self.absorb(r.key.as_slice(), r.min, r.max, r.sum, r.count);
                proof {
                    let k = other.rec_at(i as int, j as int).key@;
                    let st = rec_stats(other.rec_at(i as int, j as int));
                    assert(!m_done.contains_key(k)) by {
                        if m_done.contains_key(k) {
                            let (i2, j2) = choose|i2: int, j2: int|
                                (i2 < i || (i2 == i && j2 < j)) && other.valid_idx(i2, j2) && (
                                #[trigger] other.rec_at(i2, j2)).key@ == k;
                            assert(bucket_of(k, other.cap()) == i2);
                            assert(bucket_of(k, other.cap()) == i as int);
                        }
                    }
                    other.lemma_stats_at(k, j as int);
                    crate::model::lemma_merge_insert(old(self)@, m_done, k, st);
                    m_done = m_done.insert(k, st);
                    assert forall|k2: Seq<u8>| #[trigger] m_done.contains_key(k2) implies other@.contains_key(
                        k2,
                    ) && m_done[k2] == other@[k2] && seen_key(other, i as int, j as int + 1, k2) by {
                        if k2 == k {
                            assert((i as int) < i as int || (i as int == i as int && (j as int) < j
                                as int + 1));
                            assert(other.valid_idx(i as int, j as int) && other.rec_at(
                                i as int,
                                j as int,
                            ).key@ == k2);
                        } else {
                            let (i2, j2) = choose|i2: int, j2: int|
                                (i2 < i || (i2 == i && j2 < j)) && other.valid_idx(i2, j2) && (
                                #[trigger] other.rec_at(i2, j2)).key@ == k2;
                            assert((i2 < i || (i2 == i && j2 < j as int + 1)) && other.valid_idx(
                                i2,
                                j2,
                            ) && other.rec_at(i2, j2).key@ == k2);
                        }
                    }
                }
                j = j + 1;
            }
            i = i + 1;
            proof {
                assert(counts_upto(other.buckets@, i as int) == counts_upto(
                    other.buckets@,
                    i as int - 1,
                ) + counts_in_prefix(
                    other.buckets@[i as int - 1]@,
                    other.buckets@[i as int - 1]@.len() as int,
                ));
                assert forall|k: Seq<u8>| #[trigger] m_done.contains_key(k) implies seen_key(
                    other,
                    i as int,
                    0,
                    k,
                ) by {
                    let (i2, j2) = choose|i2: int, j2: int|
                        (i2 < i - 1 || (i2 == i - 1 && j2 < blen)) && other.valid_idx(i2, j2) && (
                        #[trigger] other.rec_at(i2, j2)).key@ == k;
                    assert((i2 < i as int || (i2 == i as int && j2 < 0)) && other.valid_idx(i2, j2)
                        && other.rec_at(i2, j2).key@ == k);
                }
            }
        }
        proof {
            assert forall|k: Seq<u8>| #[trigger] other@.contains_key(k) implies m_done.contains_key(
                k,
            ) by {
                let bb = bucket_of(k, other.cap());
                let j2 = choose|j2: int|
                    other.valid_idx(bb, j2) && (#[trigger] other.rec_at(bb, j2)).key@ == k;
                assert(other.valid_idx(bb, j2));
            }
            assert(m_done =~= other@);
        }
    }

    /// Lists every record as (key bytes, min, max, sum, count): each key
    /// the table holds appears exactly once, with its summary.
    pub fn entries(&self) -> (out: Vec<(Vec<u8>, i64, i64, i128, u64)>)
        requires
            self.wf(),
        ensures
            forall|x: int|
                0 <= x < out@.len() ==> {
                    let e = #[trigger] out@[x];
                    self@.contains_key(e.0@) && self@[e.0@] == (Stats {
                        min: e.1 as int,
                        max: e.2 as int,
                        sum: e.3 as int,
                        count: e.4 as nat,
                    })
                },
            forall|k: Seq<u8>| #[trigger] self@.contains_key(k) ==> has_entry(out@, k),
            forall|x1: int, x2: int| 0 <= x1 < x2 < out@.len() ==> out@[x1].0@ != out@[x2].0@,
    {
        let mut out: Vec<(Vec<u8>, i64, i64, i128, u64)> = Vec::new();
        let cap = self.buckets.len();
        let mut i: usize = 0;
        while i < cap
            invariant
                self.wf(),
                cap == self.buckets@.len(),
                i <= cap,
                forall|x: int|
                    0 <= x < out@.len() ==> {
                        let e = #[trigger] out@[x];
                        self@.contains_key(e.0@) && self@[e.0@] == (Stats {
                            min: e.1 as int,
                            max: e.2 as int,
                            sum: e.3 as int,
                            count: e.4 as nat,
                        }) && seen_key(*self, i as int, 0, e.0@)
                    },
                forall|i2: int, j2: int|
                    i2 < i && self.valid_idx(i2, j2) ==> has_entry(
                        out@,
                        (#[trigger] self.rec_at(i2, j2)).key@,
                    ),
                forall|x1: int, x2: int| 0 <= x1 < x2 < out@.len() ==> out@[x1].0@ != out@[x2].0@,
            decreases cap - i,
        {
            let blen = self.buckets[i].len();
            let mut j: usize = 0;
            while j < blen
                invariant
                    self.wf(),
                    cap == self.buckets@.len(),
                    i < cap,
                    blen == self.buckets@[i as int]@.len(),
                    j <= blen,
                    forall|x: int|
                        0 <= x < out@.len() ==> {
                            let e = #[trigger] out@[x];
                            self@.contains_key(e.0@) && self@[e.0@] == (Stats {
                                min: e.1 as int,
                                max: e.2 as int,
                                sum: e.3 as int,
                                count: e.4 as nat,
                            }) && seen_key(*self, i as int, j as int, e.0@)
                        },
                    forall|i2: int, j2: int|
                        (i2 < i || (i2 == i && j2 < j)) && self.valid_idx(i2, j2) ==> has_entry(
                            out@,
                            (#[trigger] self.rec_at(i2, j2)).key@,
                        ),
                    forall|x1: int, x2: int|
                        0 <= x1 < x2 < out@.len() ==> out@[x1].0@ != out@[x2].0@,
                decreases blen - j,
            {
                let r = &self.buckets[i][j];
                let ghost out0 = out@;
                out.push(
                    (vstd::slice::slice_to_vec(r.key.as_slice()), r.min, r.max, r.sum, r.count),
                );
                proof {
                    let k = self.rec_at(i as int, j as int).key@;
                    self.lemma_stats_at(k, j as int);
                    assert(out@[out0.len() as int].0@ == k);
                    assert(forall|x: int| 0 <= x < out0.len() ==> #[trigger] out@[x] == out0[x]);
                    assert forall|x: int| 0 <= x < out0.len() implies out0[x].0@ != k by {
                        let (i2, j2) = choose|i2: int, j2: int|
                            (i2 < i || (i2 == i && j2 < j)) && self.valid_idx(i2, j2) && (
                            #[trigger] self.rec_at(i2, j2)).key@ == out0[x].0@;
                        if out0[x].0@ == k {
                            assert(bucket_of(k, self.cap()) == i2);
                            assert(bucket_of(k, self.cap()) == i as int);
                        }
                    }
                    assert forall|kk: Seq<u8>| has_entry(out0, kk) implies has_entry(out@, kk) by {
                        let x = choose|x: int| 0 <= x < out0.len() && (#[trigger] out0[x]).0@ == kk;
                        assert(0 <= x < out@.len() && out@[x].0@ == kk);
                    }
                    assert(has_entry(out@, k)) by {
                        assert(0 <= out0.len() < out@.len() && out@[out0.len() as int].0@ == k);
                    }
                    assert forall|i2: int, j2: int|
                        (i2 < i || (i2 == i && j2 < j as int + 1)) && self.valid_idx(
                            i2,
                            j2,
                        ) implies has_entry(out@, (#[trigger] self.rec_at(i2, j2)).key@) by {
                        if !(i2 == i as int && j2 == j as int) {
                            assert(has_entry(out0, self.rec_at(i2, j2).key@));
                        }
                    }
                    assert forall|x: int| 0 <= x < out@.len() implies seen_key(
                        *self,
                        i as int,
                        j as int + 1,
                        (#[trigger] out@[x]).0@,
                    ) by {
                        if x < out0.len() {
                            let (i2, j2) = choose|i2: int, j2: int|
                                (i2 < i || (i2 == i && j2 < j)) && self.valid_idx(i2, j2) && (
                                #[trigger] self.rec_at(i2, j2)).key@ == out0[x].0@;
                            assert((i2 < i as int || (i2 == i as int && j2 < j as int + 1))
                                && self.valid_idx(i2, j2) && self.rec_at(i2, j2).key@
                                == out@[x].0@);
                        } else {
                            assert(((i as int) < i as int || (i as int == i as int && (j as int) < j
                                as int + 1)) && self.valid_idx(i as int, j as int) && self.rec_at(
                                i as int,
                                j as int,
                            ).key@ == k);
                        }
                    }
                }
                j = j + 1;
            }
            i = i + 1;
            proof {
                assert forall|x: int| 0 <= x < out@.len() implies seen_key(
                    *self,
                    i as int,
                    0,
                    (#[trigger] out@[x]).0@,
                ) by {
                    let (i2, j2) = choose|i2: int, j2: int|
                        (i2 < i - 1 || (i2 == i - 1 && j2 < blen)) && self.valid_idx(i2, j2) && (
                        #[trigger] self.rec_at(i2, j2)).key@ == out@[x].0@;
                    assert((i2 < i as int || (i2 == i as int && j2 < 0)) && self.valid_idx(i2, j2)
                        && self.rec_at(i2, j2).key@ == out@[x].0@);
                }
                assert forall|i2: int, j2: int|
                    i2 < i && self.valid_idx(i2, j2) implies has_entry(
                    out@,
                    (#[trigger] self.rec_at(i2, j2)).key@,
                ) by {
                    assert((i2 < i - 1 || (i2 == i - 1 && j2 < blen)) && self.valid_idx(i2, j2));
                }
            }
        }
        proof {
            assert forall|k: Seq<u8>| #[trigger] self@.contains_key(k) implies has_entry(
                out@,
                k,
            ) by {
                let bb = bucket_of(k, self.cap());
                let j2 = choose|j2: int|
                    self.valid_idx(bb, j2) && (#[trigger] self.rec_at(bb, j2)).key@ == k;
                assert(self.valid_idx(bb, j2));
                assert(self.rec_at(bb, j2).key@ == k);
            }
        }
        out
    }

    /// Looks a key up: its (min, max, sum, count), or `None` when no
    /// line carried the key.
    pub fn get(&self, key: &[u8]) -> (r: Option<(i64, i64, i128, u64)>)
        requires
            self.wf(),
        ensures
            match r {
                Some(q) => self@.contains_key(key@) && self@[key@] == (Stats {
                    min: q.0 as int,
                    max: q.1 as int,
                    sum: q.2 as int,
                    count: q.3 as nat,
                }),
                None => !self@.contains_key(key@),
            },
    {
        let h = hash_bytes(key);
        let bi = (h % (self.buckets.len() as u64)) as usize;
        let blen = self.buckets[bi].len();
        let mut j: usize = 0;
        while j < blen
            invariant
                self.wf(),
                bi == bucket_of(key@, self.cap()),
                blen == self.buckets@[bi as int]@.len(),
                bi < self.buckets@.len(),
                j <= blen,
                forall|jj: int| 0 <= jj < j ==> self.rec_at(bi as int, jj).key@ != key@,
            decreases blen - j,
        {
            let r = &self.buckets[bi][j];
            if bytes_equal(r.key.as_slice(), key) {
                proof {
                    self.lemma_stats_at(key@, j as int);
                }
                return Some((r.min, r.max, r.sum, r.count));
            }
            j = j + 1;
        }
        proof {
            assert(!self.has_key(key@));
        }
        None
    }
}

} // verus!
