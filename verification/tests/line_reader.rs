use lineagg::lines::next_line;

#[test]
fn first_line_result_does_not_depend_on_later_lines() {
    let good = b"A;1.5\nB;2.0\n";
    let bad = b"A;1.5\nB;x\n";
    let from_good = next_line(good, 0).unwrap().unwrap();
    let from_bad = next_line(bad, 0).unwrap().unwrap();
    assert_eq!(from_good, from_bad);
    assert_eq!(from_good, (0, 1, 15, 6));
}

#[test]
fn next_line_errors_on_the_malformed_line_itself() {
    assert!(next_line(b"B;x\n", 0).is_err());
    assert!(next_line(b"noseparator\n", 0).is_err());
    // a well-formed first line parses; the malformed one errors at its own cursor
    assert!(next_line(b"A;1.5\nB;x\n", 0).is_ok());
    assert!(next_line(b"A;1.5\nB;x\n", 6).is_err());
}

#[test]
fn cursor_lands_one_past_the_terminator_or_at_the_end() {
    assert_eq!(next_line(b"A;1.0\nB;2.0", 0).unwrap().unwrap().3, 6);
    assert_eq!(next_line(b"A;1.0", 0).unwrap().unwrap().3, 5);
    assert_eq!(next_line(b"A;1.0", 5).unwrap(), None);
    assert_eq!(next_line(b"A;1.0", 9), Ok(None));
}

#[test]
fn key_and_value_spans_are_the_first_delimiter_and_terminator() {
    let (ks, ke, v, next) = next_line(b"key;2.5\nrest;0\n", 0).unwrap().unwrap();
    assert_eq!((ks, ke), (0, 3));
    assert_eq!(v, 25);
    assert_eq!(next, 8);
}
