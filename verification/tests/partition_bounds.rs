use lineagg::engine::partition;

fn check_bounds(input: &[u8], count: usize) -> Vec<usize> {
    let bounds = partition(input, count);
    assert_eq!(bounds.len(), count + 1);
    assert_eq!(bounds[0], 0);
    assert_eq!(bounds[count], input.len());
    for x in 0..count {
        assert!(bounds[x] <= bounds[x + 1]);
        assert!(bounds[x] == 0 || input[bounds[x] - 1] == b'\n');
    }
    // concatenating all spans reproduces the input exactly
    let mut rebuilt = Vec::new();
    for x in 0..count {
        rebuilt.extend_from_slice(&input[bounds[x]..bounds[x + 1]]);
    }
    assert_eq!(rebuilt, input);
    bounds
}

#[test]
fn boundaries_are_line_aligned_and_cover() {
    let input = b"aa;1\nbbbb;2\nc;3\ndd;4\neeee;5\nf;6\n";
    for count in 1..=10usize {
        check_bounds(input, count);
    }
}

#[test]
fn partition_of_empty_input() {
    let bounds = check_bounds(b"", 4);
    assert_eq!(bounds, vec![0, 0, 0, 0, 0]);
}

#[test]
fn partition_without_any_terminator_collapses() {
    // no line feed anywhere: every interior boundary falls back to its
    // predecessor and the whole input stays one span
    let input = b"one-enormous-line-with-no-terminator";
    let bounds = check_bounds(input, 3);
    assert_eq!(bounds, vec![0, 0, 0, input.len()]);
}

#[test]
fn more_segments_than_lines() {
    let input = b"a;1\nb;2\n";
    check_bounds(input, 7);
}
