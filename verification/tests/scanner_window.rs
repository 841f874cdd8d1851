use lineagg::scanner::find_byte;

#[test]
fn delimiter_found_at_every_offset_around_window_edge() {
    for off in 0..64usize {
        let mut bytes = vec![b'x'; 96];
        bytes[off] = b';';
        assert_eq!(find_byte(&bytes, 0, b';'), off, "offset {}", off);
    }
}

#[test]
fn delimiter_found_from_nonzero_start_around_window_edge() {
    for off in 0..64usize {
        let mut bytes = vec![b'x'; 160];
        bytes[50 + off] = b';';
        assert_eq!(find_byte(&bytes, 50, b';'), 50 + off, "offset {}", off);
    }
}

#[test]
fn first_of_two_matches_wins_across_the_window_edge() {
    let mut bytes = vec![b'x'; 96];
    bytes[31] = b';';
    bytes[32] = b';';
    assert_eq!(find_byte(&bytes, 0, b';'), 31);
    assert_eq!(find_byte(&bytes, 32, b';'), 32);
}

#[test]
fn absent_byte_reports_end_of_range() {
    let bytes = vec![b'x'; 40];
    assert_eq!(find_byte(&bytes, 0, b';'), 40);
    assert_eq!(find_byte(&bytes, 40, b';'), 40);
    assert_eq!(find_byte(&[], 0, b';'), 0);
}

#[test]
fn short_tail_does_not_report_spurious_match() {
    // fewer bytes than one window remain: the zero-padded tail must not
    // pretend to hold the target
    let bytes = vec![b'x'; 10];
    assert_eq!(find_byte(&bytes, 0, b';'), 10);
    assert_eq!(find_byte(&bytes, 0, 0), 10);
    let mut with_nul = vec![b'x'; 10];
    with_nul[7] = 0;
    assert_eq!(find_byte(&with_nul, 0, 0), 7);
}
