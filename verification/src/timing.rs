use vstd::prelude::*;

verus! {

#[verifier::external_type_specification]
#[verifier::external_body]
pub struct ExInstant(std::time::Instant);

/// Relies on std::time::Instant::now: reads the monotonic clock; nothing
/// is promised of the value read.
#[verifier::external_body]
fn instant_now() -> std::time::Instant {
    std::time::Instant::now()
}

/// Relies on std::time::Instant::elapsed: the time since `start`, which
/// never panics; nothing is promised of the value.
#[verifier::external_body]
fn elapsed_since(start: &std::time::Instant) -> std::time::Duration {
    start.elapsed()
}

/// Relies on division of std::time::Duration by u32, which panics only
/// on zero; the contract rules zero out.
#[verifier::external_body]
fn duration_div(d: std::time::Duration, count: u32) -> std::time::Duration
    requires
        count > 0,
{
    d / count
}

/// Runs `f` `count` times and returns the mean wall-clock time of one
/// run.
pub fn timeit<F: Fn() -> ()>(f: F, count: usize) -> std::time::Duration
    requires
        0 < count <= u32::MAX,
        call_requires(f, ()),
{
    let start = instant_now();
    let mut i: usize = 0;
    while i < count
        invariant
            call_requires(f, ()),
            i <= count,
        decreases count - i,
    {
        f();
        i = i + 1;
    }
    duration_div(elapsed_since(&start), count as u32)
}

} // verus!
