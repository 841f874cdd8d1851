use lineagg::engine::{aggregate, aggregate_segments, aggregate_with_capacity};

#[test]
fn three_records_two_keys() {
    let input = b"A;1.0\nB;2.0\nA;3.0\n";
    let t = aggregate(input).unwrap();
    assert_eq!(t.get(b"A"), Some((10, 30, 40, 2)));
    assert_eq!(t.get(b"B"), Some((20, 20, 20, 1)));
    assert_eq!(t.get(b"C"), None);
    assert_eq!(t.total, 3);
}

#[test]
fn missing_trailing_terminator_parses_identically() {
    let with_lf = aggregate(b"A;1.0\nB;2.0\n").unwrap();
    let without_lf = aggregate(b"A;1.0\nB;2.0").unwrap();
    assert_eq!(with_lf.get(b"A"), without_lf.get(b"A"));
    assert_eq!(with_lf.get(b"B"), without_lf.get(b"B"));
    assert_eq!(with_lf.total, without_lf.total);
}

#[test]
fn empty_input_yields_empty_table() {
    let t = aggregate(b"").unwrap();
    assert_eq!(t.total, 0);
    assert_eq!(t.get(b"A"), None);
    assert!(t.entries().is_empty());
}

#[test]
fn segment_count_does_not_change_result() {
    let input = b"A;1.0\nB;2.0\nA;3.0\nC;-4.5\nB;0.5\nA;1.5\nD;100\nC;4.5\n";
    let single = aggregate(input).unwrap();
    for count in 1..=9usize {
        let split = aggregate_segments(input, count).unwrap();
        assert_eq!(split.total, single.total);
        for key in [&b"A"[..], b"B", b"C", b"D", b"E"] {
            assert_eq!(split.get(key), single.get(key), "segment count {}", count);
        }
    }
}

#[test]
fn negative_values_aggregate() {
    let t = aggregate(b"k;-1.5\nk;-0.5\nk;2\n").unwrap();
    assert_eq!(t.get(b"k"), Some((-15, 20, 0, 3)));
}

#[test]
fn empty_key_is_a_key() {
    let t = aggregate(b";1.0\n;2.0\n").unwrap();
    assert_eq!(t.get(b""), Some((10, 20, 30, 2)));
}

#[test]
fn line_without_delimiter_is_fatal() {
    assert!(aggregate(b"A\n").is_err());
    assert!(aggregate(b"A;1.0\nB\nC;2.0\n").is_err());
}

#[test]
fn empty_line_is_fatal() {
    assert!(aggregate(b"\n").is_err());
    assert!(aggregate(b"A;1.0\n\nB;2.0\n").is_err());
}

#[test]
fn undecodable_value_is_fatal() {
    assert!(aggregate(b"A;x\n").is_err());
    assert!(aggregate(b"A;1.0\nB;12.34\n").is_err());
    assert!(aggregate(b"A;\n").is_err());
}

#[test]
fn malformed_segment_fails_split_run_too() {
    let input = b"A;1.0\nB;oops\nC;2.0\n";
    assert!(aggregate(input).is_err());
    for count in 1..=4usize {
        assert!(aggregate_segments(input, count).is_err());
    }
}

#[test]
fn min_le_max_on_every_record() {
    let input = b"x;5.0\ny;-3.2\nx;-5.0\nz;0\ny;9.9\n";
    let t = aggregate(input).unwrap();
    for (_, min, max, _, count) in t.entries() {
        assert!(min <= max);
        assert!(count >= 1);
    }
}

#[test]
fn sum_and_count_add_up_per_key() {
    let input = b"a;1.1\nb;2.2\na;3.3\na;-0.4\nb;0.0\n";
    let t = aggregate(input).unwrap();
    assert_eq!(t.get(b"a"), Some((-4, 33, 40, 3)));
    assert_eq!(t.get(b"b"), Some((0, 22, 22, 2)));
    assert_eq!(t.total, 5);
}

#[test]
fn single_slot_capacity_still_separates_keys() {
    let input = b"A;1.0\nB;2.0\nA;3.0\n";
    let t = aggregate_with_capacity(input, 1).unwrap();
    assert_eq!(t.get(b"A"), Some((10, 30, 40, 2)));
    assert_eq!(t.get(b"B"), Some((20, 20, 20, 1)));
}

#[test]
fn entries_lists_each_key_once() {
    let input = b"A;1.0\nB;2.0\nA;3.0\n";
    let t = aggregate(input).unwrap();
    let mut entries = t.entries();
    entries.sort_by(|a, b| a.0.cmp(&b.0));
    assert_eq!(entries.len(), 2);
    assert_eq!(entries[0], (b"A".to_vec(), 10, 30, 40, 2));
    assert_eq!(entries[1], (b"B".to_vec(), 20, 20, 20, 1));
}

#[test]
fn huge_single_line_without_terminator() {
    let mut input = Vec::new();
    input.extend_from_slice(b"onlykey;");
    input.extend_from_slice(b"7.5");
    let t = aggregate_segments(&input, 4).unwrap();
    assert_eq!(t.get(b"onlykey"), Some((75, 75, 75, 1)));
    assert_eq!(t.total, 1);
}
