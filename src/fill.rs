//! Direct single-threaded fills of caller-owned buffers.

use crate::rng::{
    fill_u64s, rng_words, u64_fill_state, u64_fill_values, uniform_u64, uniform_u64_state,
    uniform_u64_value, MainRng,
};
use vstd::prelude::*;

verus! {

/// The next `n` uniform draws in `[lo, hi)` from state `s`, in order.
pub open spec fn range_draws(s: Seq<u64>, n: nat, lo: u64, hi: u64) -> Seq<u64>
    decreases n,
{
    if n == 0 {
        Seq::empty()
    } else {
        seq![uniform_u64_value(s, lo, hi)] + range_draws(uniform_u64_state(s, lo, hi), (n - 1) as nat, lo, hi)
    }
}

/// The state after `n` uniform draws in `[lo, hi)` from state `s`.
pub open spec fn range_state(s: Seq<u64>, n: nat, lo: u64, hi: u64) -> Seq<u64>
    decreases n,
{
    if n == 0 {
        s
    } else {
        range_state(uniform_u64_state(s, lo, hi), (n - 1) as nat, lo, hi)
    }
}

/// Overwrites every slot of `dst` with the stream's next 64-bit values.
pub fn fill_u64_single_thread(rng: &mut MainRng, dst: &mut Vec<u64>)
    ensures
        final(dst)@.len() == old(dst)@.len(),
        final(dst)@ == u64_fill_values(rng_words(*old(rng)), old(dst)@.len()),
        rng_words(*final(rng)) == u64_fill_state(rng_words(*old(rng)), old(dst)@.len()),
{
    fill_u64s(rng, dst);
}

/// Overwrites every slot of `dst` with a value drawn uniformly from the
/// inclusive range `[min, max]`, in stream order; values may repeat. `max + 1`
/// must fit.
pub fn fill_u64_single_thread_range(rng: &mut MainRng, dst: &mut Vec<u64>, min: u64, max: u64)
    requires
        min <= max < u64::MAX,
    ensures
        final(dst)@.len() == old(dst)@.len(),
        forall|i: int| 0 <= i < final(dst)@.len() ==> min <= #[trigger] final(dst)@[i] <= max,
        final(dst)@ == range_draws(rng_words(*old(rng)), old(dst)@.len(), min, (max + 1) as u64),
        rng_words(*final(rng)) == range_state(rng_words(*old(rng)), old(dst)@.len(), min, (max + 1) as u64),
{
    let ghost s0 = rng_words(*rng);
    let ghost hi = (max + 1) as u64;
    let n = dst.len();
    let mut i: usize = 0;
    while i < n
        invariant
            min <= max < u64::MAX,
            hi == max + 1,
            n == dst@.len(),
            i <= n,
            forall|k: int| 0 <= k < i ==> min <= #[trigger] dst@[k] <= max,
            dst@.take(i as int) + range_draws(rng_words(*rng), (n - i) as nat, min, hi) == range_draws(s0, n as nat, min, hi),
            range_state(rng_words(*rng), (n - i) as nat, min, hi) == range_state(s0, n as nat, min, hi),
        decreases n - i,
    {
        let ghost before = rng_words(*rng);
        let ghost prefix = dst@.take(i as int);
        let v = uniform_u64(rng, min, max + 1);
        dst.set(i, v);
        proof {
            let rest = range_draws(rng_words(*rng), (n - i - 1) as nat, min, hi);
            assert(range_draws(before, (n - i) as nat, min, hi) == seq![v] + rest);
            assert(dst@.take(i + 1) =~= prefix.push(v));
            assert(prefix.push(v) + rest =~= prefix + (seq![v] + rest));
        }
        i = i + 1;
    }
    assert(dst@.take(n as int) =~= dst@);
}

} // verus!
