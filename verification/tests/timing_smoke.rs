use lineagg::timing::timeit;

#[test]
fn timeit_runs_the_closure_and_returns_a_mean() {
    let d = timeit(|| {}, 3);
    let _ = d.as_nanos();
}

#[test]
fn timeit_times_real_work() {
    let input = b"A;1.0\nB;2.0\nA;3.0\n";
    let d = timeit(
        || {
            let t = lineagg::engine::aggregate(input).unwrap();
            assert_eq!(t.total, 3);
        },
        2,
    );
    let _ = d.as_micros();
}
