//! The sampling loop that a runner uses: warm up, then time each iteration
//! until the iteration or time budget runs out.
use vstd::prelude::*;

use crate::klv::Benchmark;

verus! {

#[verifier::external_type_specification]
#[verifier::external_body]
pub struct ExInstant(std::time::Instant);

/// Relies on `Instant::now`: a reading of the monotonic clock.
#[verifier::external_body]
fn clock_now() -> std::time::Instant {
    std::time::Instant::now()
}

/// Relies on `Instant::elapsed`: the time since `start`, which the clock alone decides.
#[verifier::external_body]
fn elapsed_since(start: &std::time::Instant) -> std::time::Duration {
    start.elapsed()
}

/// Relies on `Duration::as_nanos`: the whole nanoseconds of a duration.
#[verifier::external_body]
fn whole_nanos(d: &std::time::Duration) -> u128 {
    d.as_nanos()
}

/// The whole nanoseconds since `start`.
fn nanos_since(start: &std::time::Instant) -> u128 {
    let d = elapsed_since(start);
    whole_nanos(&d)
}

/// One measured iteration.
#[derive(Clone, Copy, Debug, PartialEq, Eq, Structural)]
pub struct Sample {
    /// How long the iteration took, in nanoseconds.
    pub duration: u64,
    /// The count that the iteration reported, which the harness checks.
    pub count: u64,
}

/// `c` is what `count` returned for a result that `bench` returned.
pub open spec fn counted_by<T, E, F: Fn(T) -> Result<usize, E>, B: Fn() -> Result<T, E>>(
    bench: B,
    count: F,
    c: u64,
) -> bool {
    exists|t: T|
        call_ensures(bench, (), Ok::<T, E>(t)) && #[trigger] call_ensures(
            count,
            (t,),
            Ok::<usize, E>(c as usize),
        )
}

/// `e` is an error that `bench` returned, or that `count` returned for a result.
pub open spec fn failed_with<T, E, F: Fn(T) -> Result<usize, E>, B: Fn() -> Result<T, E>>(
    bench: B,
    count: F,
    e: E,
) -> bool {
    call_ensures(bench, (), Err::<T, E>(e)) || exists|t: T|
        #[trigger] call_ensures(count, (t,), Err::<usize, E>(e))
}

/// A duration in nanoseconds, capped at `u64::MAX`.
fn capped(n: u128) -> (r: u64)
    ensures
        r == if n > u64::MAX {
            u64::MAX as int
        } else {
            n as int
        },
{
    if n > u64::MAX as u128 {
        u64::MAX
    } else {
        n as u64
    }
}

/// Runs `bench` until the iteration or time budget of `b` runs out, and
/// returns one sample per measured iteration; `count` turns each result into
/// the sample's count, outside the timed part. It first runs up to
/// `b.max_warmup_iters` warm-up iterations within `b.max_warmup_time`. The
/// first error of `bench` or `count` is returned.
pub fn run_and_count<T, E>(
    b: &Benchmark,
    count: impl Fn(T) -> Result<usize, E>,
    bench: impl Fn() -> Result<T, E>,
) -> (r: Result<Vec<Sample>, E>)
    requires
        call_requires(bench, ()),
        forall|t: T| call_requires(count, (t,)),
    ensures
        match r {
            Ok(s) => {
                &&& s@.len() <= b.max_iters
                &&& b.max_iters > 0 ==> s@.len() >= 1
                &&& forall|k: int|
                    0 <= k < s@.len() ==> counted_by(bench, count, #[trigger] s@[k].count)
            },
            Err(e) => failed_with(bench, count, e),
        },
{
    let warmup_start = clock_now();
    let mut i: u64 = 0;
    while i < b.max_warmup_iters
        invariant
            call_requires(bench, ()),
            forall|t: T| call_requires(count, (t,)),
        decreases b.max_warmup_iters - i,
    {
        let result = match bench() {
            Ok(x) => x,
            Err(e) => return Err(e),
        };
        let ghost arg = result;
        match count(result) {
            Ok(_) => {},
            Err(e) => {
                assert(call_ensures(count, (arg,), Err::<usize, E>(e)));
                return Err(e);
            },
        }
        if nanos_since(&warmup_start) >= b.max_warmup_time as u128 {
            break ;
        }
        i = i + 1;
    }
    let mut samples: Vec<Sample> = Vec::new();
    let run_start = clock_now();
    let mut i: u64 = 0;
    while i < b.max_iters
        invariant
            call_requires(bench, ()),
            forall|t: T| call_requires(count, (t,)),
            samples@.len() == i,
            i <= b.max_iters,
            forall|k: int| 0 <= k < samples@.len() ==> counted_by(bench, count, #[trigger] samples@[k].count),
        ensures
            samples@.len() <= b.max_iters,
            b.max_iters > 0 ==> samples@.len() >= 1,
            forall|k: int| 0 <= k < samples@.len() ==> counted_by(bench, count, #[trigger] samples@[k].count),
        decreases b.max_iters - i,
    {
        let bench_start = clock_now();
        let result = bench();
        let duration = capped(nanos_since(&bench_start));
        let value = match result {
            Ok(x) => x,
            Err(e) => return Err(e),
        };
        let ghost arg = value;
        assert(call_ensures(bench, (), Ok::<T, E>(arg)));
        let counted = count(value);
        let n = match counted {
            Ok(n) => n,
            Err(e) => {
                assert(call_ensures(count, (arg,), Err::<usize, E>(e)));
                return Err(e);
            },
        };
        let ghost before = samples@;
        samples.push(Sample { duration, count: n as u64 });
        proof {
            assert(call_ensures(count, (arg,), Ok::<usize, E>(samples@[before.len() as int].count as usize)));
            assert forall|k: int| 0 <= k < samples@.len() implies counted_by(bench, count, #[trigger] samples@[k].count) by {
                if k < before.len() {
                    assert(samples@[k] == before[k]);
                } else {
                    assert(call_ensures(count, (arg,), Ok::<usize, E>(samples@[k].count as usize)));
                }
            }
        }
        i = i + 1;
        if nanos_since(&run_start) >= b.max_time as u128 {
            break ;
        }
    }
    Ok(samples)
}

/// Like `run_and_count`, where the count of an iteration is its result.
pub fn run<E>(b: &Benchmark, bench: impl Fn() -> Result<usize, E>) -> (r: Result<Vec<Sample>, E>)
    requires
        call_requires(bench, ()),
    ensures
        match r {
            Ok(s) => {
                &&& s@.len() <= b.max_iters
                &&& b.max_iters > 0 ==> s@.len() >= 1
                &&& forall|k: int|
                    0 <= k < s@.len() ==> call_ensures(
                        bench,
                        (),
                        Ok::<usize, E>((#[trigger] s@[k]).count as usize),
                    )
            },
            Err(e) => call_ensures(bench, (), Err::<usize, E>(e)),
        },
{
    let identity = |n: usize| -> (r: Result<usize, E>)
        ensures
            r == Ok::<usize, E>(n),
        { Ok(n) };
    let r = run_and_count(b, identity, bench);
    let ghost outcome = r;
    proof {
        match outcome {
            Ok(s) => {
                assert forall|k: int| 0 <= k < s@.len() implies call_ensures(
                    bench,
                    (),
                    Ok::<usize, E>((#[trigger] s@[k]).count as usize),
                ) by {
                    assert(counted_by(bench, identity, s@[k].count));
                    let t = choose|t: usize|
                        call_ensures(bench, (), Ok::<usize, E>(t)) && #[trigger] call_ensures(
                            identity,
                            (t,),
                            Ok::<usize, E>(s@[k].count as usize),
                        );
                }
            },
            Err(e) => {
                if !call_ensures(bench, (), Err::<usize, E>(e)) {
                    let t = choose|t: usize| #[trigger] call_ensures(identity, (t,), Err::<usize, E>(e));
                }
            },
        }
    }
    r
}

} // verus!
