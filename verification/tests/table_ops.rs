use lineagg::table::{hash_bytes, AggTable};

#[test]
fn colliding_keys_keep_independent_records() {
    // with a single slot every key shares it: the collision path must
    // still keep the two keys' statistics apart
    let mut t = AggTable::new(1);
    t.upsert(b"alpha", 10);
    t.upsert(b"beta", 20);
    t.upsert(b"alpha", 30);
    assert_eq!(t.get(b"alpha"), Some((10, 30, 40, 2)));
    assert_eq!(t.get(b"beta"), Some((20, 20, 20, 1)));
    assert_eq!(t.get(b"gamma"), None);
}

#[test]
fn three_keys_in_two_slots_collide_somewhere() {
    // by pigeonhole at least two of the three keys share a slot
    let mut t = AggTable::new(2);
    t.upsert(b"k1", 1);
    t.upsert(b"k2", 2);
    t.upsert(b"k3", 3);
    assert_eq!(t.get(b"k1"), Some((1, 1, 1, 1)));
    assert_eq!(t.get(b"k2"), Some((2, 2, 2, 1)));
    assert_eq!(t.get(b"k3"), Some((3, 3, 3, 1)));
}

#[test]
fn merge_is_commutative_on_results() {
    let mut a1 = AggTable::new(8);
    a1.upsert(b"x", 5);
    a1.upsert(b"y", -3);
    let mut b1 = AggTable::new(8);
    b1.upsert(b"y", 7);
    b1.upsert(b"z", 0);

    let mut a2 = AggTable::new(8);
    a2.upsert(b"x", 5);
    a2.upsert(b"y", -3);
    let mut b2 = AggTable::new(8);
    b2.upsert(b"y", 7);
    b2.upsert(b"z", 0);

    a1.merge(b1);
    b2.merge(a2);
    for key in [&b"x"[..], b"y", b"z", b"w"] {
        assert_eq!(a1.get(key), b2.get(key));
    }
    assert_eq!(a1.total, b2.total);
}

#[test]
fn merge_of_differing_capacities_rehashes() {
    let mut small = AggTable::new(1);
    small.upsert(b"p", 4);
    let mut large = AggTable::new(64);
    large.upsert(b"p", 6);
    large.upsert(b"q", 1);
    large.merge(small);
    assert_eq!(large.get(b"p"), Some((4, 6, 10, 2)));
    assert_eq!(large.get(b"q"), Some((1, 1, 1, 1)));
}

#[test]
fn merge_with_empty_is_identity() {
    let mut t = AggTable::new(4);
    t.upsert(b"k", 9);
    t.merge(AggTable::new(4));
    assert_eq!(t.get(b"k"), Some((9, 9, 9, 1)));
    assert_eq!(t.total, 1);
}

#[test]
fn fnv_hash_of_distinct_keys_differs_here() {
    // not a law of hashing, but these well-known vectors must hold for
    // the FNV-1a constants used
    assert_eq!(hash_bytes(b""), 14695981039346656037);
    assert_eq!(hash_bytes(b"a"), 0xaf63dc4c8601ec8c);
    assert_eq!(hash_bytes(b"foobar"), 0x85944171f73967e8);
}

#[test]
fn upsert_tracks_min_max_sum_count() {
    let mut t = AggTable::new(16);
    t.upsert(b"m", 3);
    t.upsert(b"m", -8);
    t.upsert(b"m", 12);
    t.upsert(b"m", 0);
    assert_eq!(t.get(b"m"), Some((-8, 12, 7, 4)));
    assert_eq!(t.total, 4);
}
