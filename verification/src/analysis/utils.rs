//! The clock and the random input of the benchmarks.

use vstd::prelude::*;
use rand::Rng;

verus! {

/// A moment on the monotonic clock of std.
#[verifier::external_type_specification]
#[verifier::external_body]
pub struct ExInstant(std::time::Instant);

/// `Instant::now` of std: the present moment. Nothing is claimed of it.
pub assume_specification[ std::time::Instant::now ]() -> (now: std::time::Instant)
;

/// `Instant::elapsed` of std: the time that has passed since the moment.
/// Nothing is claimed of it.
pub assume_specification[ std::time::Instant::elapsed ](start: &std::time::Instant) -> (d:
    std::time::Duration)
;

/// Runs `f` and returns the time that it took. What `f` ensures holds
/// afterwards; of the time nothing is known.
pub fn measure_execution<F>(f: F) -> (d: std::time::Duration) where F: FnOnce()
    requires
        call_requires(f, ()),
    ensures
        call_ensures(f, (), ()),
{
    let start = std::time::Instant::now();
    f();
    start.elapsed()
}

/// The random elements are drawn from 0 up to, but not including, this.
pub const RANDOM_BOUND: i32 = 100_000_000;

/// The generator of random numbers that `rand` keeps for each thread.
#[verifier::external_type_specification]
#[verifier::external_body]
pub struct ExThreadRng(rand::rngs::ThreadRng);

/// `rand::thread_rng`: hands out the generator of the calling thread, which
/// the operating system has seeded. Nothing is claimed of it. It panics
/// where the operating system gives no seed, which no input decides.
pub assume_specification[ rand::thread_rng ]() -> (rng: rand::rngs::ThreadRng)
;

/// `Rng::gen_range` of `rand` on the range `low..high` of `i32`: a number
/// drawn from `low` up to, but not including, `high`. Which one is left to
/// chance. The range must not be empty. The generator seeds itself anew
/// from time to time, and the call panics where the operating system then
/// gives no seed, which no input decides.
#[verifier::external_body]
fn gen_range(rng: &mut rand::rngs::ThreadRng, low: i32, high: i32) -> (x: i32)
    requires
        low < high,
    ensures
        low <= x < high,
{
    rng.gen_range(low..high)
}

/// A vector of `n` numbers, drawn independently from 0 up to, but not
/// including, `RANDOM_BOUND`.
pub fn generate_random_vector(n: usize) -> (vec: Vec<i32>)
    ensures
        vec@.len() == n,
        forall|i: int| 0 <= i < n ==> 0 <= #[trigger] vec@[i] < RANDOM_BOUND,
{
    let mut rng = rand::thread_rng();
    let mut vec: Vec<i32> = Vec::new();
    let mut k: usize = 0;
    while k < n
        invariant
            k <= n,
            vec@.len() == k,
            forall|i: int| 0 <= i < k ==> 0 <= #[trigger] vec@[i] < RANDOM_BOUND,
        decreases n - k,
    {
        let x = gen_range(&mut rng, 0, RANDOM_BOUND);
        vec.push(x);
        k += 1;
    }
    vec
}

} // verus!
