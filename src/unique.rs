//! Producing an exact number of distinct values: bulk fill over sub-streams,
//! sort and dedup, then a strictly sequential repair of the shortfall.

use crate::rng::{
    fill_u64s, jump_words, next_stream, next_u32, next_u64, rng_words, u32_fill_values, u32_state, u32_value,
    u64_fill_values, u64_state, u64_value,
    MainRng,
};
use rand::Rng;
use rayon::slice::ParallelSliceMut;
use rip_shuffle::RipShuffleParallel;
use crate::bytes::{lemma_append_distinct, lemma_rearranged_distinct};
use std::collections::HashSet;
use vstd::prelude::*;

verus! {

broadcast use vstd::std_specs::hash::group_hash_axioms;

/// Non-decreasing order.
pub open spec fn sorted(s: Seq<u32>) -> bool {
    forall|i: int, j: int| 0 <= i < j < s.len() ==> s[i] <= s[j]
}

/// Strictly increasing order, hence no value twice.
pub open spec fn strictly_sorted(s: Seq<u32>) -> bool {
    forall|i: int, j: int| 0 <= i < j < s.len() ==> s[i] < s[j]
}

/// Relies on rayon's `par_sort`: a stable sort of the slice, so the result
/// is ordered and holds the same values; under a total order that
/// arrangement is unique.
#[verifier::external_body]
pub(crate) fn sort_u32s(v: &mut Vec<u32>)
    ensures
        final(v)@ == old(v)@.sort_by(u32_leq()),
        sorted(final(v)@),
        final(v)@.len() == old(v)@.len(),
        final(v)@.to_multiset() == old(v)@.to_multiset(),
{
    v.par_sort()
}

/// The order that rip_shuffle's parallel shuffle puts `n` items of
/// `elem_bytes` bytes each in, from generator state `s`: item `i` of the
/// result is item `order[i]` of the input.
pub uninterp spec fn shuffle_order(s: Seq<u64>, n: nat, elem_bytes: nat) -> Seq<int>;

/// The generator state after that shuffle.
pub uninterp spec fn shuffle_state(s: Seq<u64>, n: nat, elem_bytes: nat) -> Seq<u64>;

/// `v` rearranged by the shuffle order for state `s`.
pub open spec fn shuffled<T>(v: Seq<T>, s: Seq<u64>) -> Seq<T> {
    Seq::new(v.len(), |i: int| v[shuffle_order(s, v.len(), vstd::layout::size_of::<T>())[i]])
}

/// Relies on rip_shuffle's `par_shuffle`: a random permutation of the slice
/// that, by its documentation, depends only on the generator (and, through
/// its bucket sizes, on the length and item size).
#[verifier::external_body]
pub(crate) fn shuffle<T: Send + Sync>(v: &mut Vec<T>, rng: &mut MainRng)
    ensures
        final(v)@.to_multiset() == old(v)@.to_multiset(),
        final(v)@ == Seq::new(
            old(v)@.len(),
            |i: int| old(v)@[shuffle_order(rng_words(*old(rng)), old(v)@.len(), vstd::layout::size_of::<T>())[i]],
        ),
        rng_words(*final(rng)) == shuffle_state(rng_words(*old(rng)), old(v)@.len(), vstd::layout::size_of::<T>()),
{
    v.as_mut_slice().par_shuffle(rng)
}

/// Relies on `Rng::fill` over a `u32` slice: every slot is overwritten, the
/// length is kept.
#[verifier::external_body]
fn fill_u32s(rng: &mut MainRng, dst: &mut Vec<u32>)
    ensures
        final(dst)@.len() == old(dst)@.len(),
        final(dst)@ == u32_fill_values(rng_words(*old(rng)), old(dst)@.len()),
{
    rng.fill(dst.as_mut_slice())
}

/// Keeps the first of each run of equal values, scanning from the front.
pub open spec fn dedup_seq(s: Seq<u32>) -> Seq<u32>
    decreases s.len(),
{
    if s.len() == 0 {
        s
    } else {
        let d = dedup_seq(s.drop_last());
        if d.len() > 0 && d.last() == s.last() {
            d
        } else {
            d.push(s.last())
        }
    }
}

/// What the repair draws from state `s`, with `pending` already accepted
/// and at most `budget` draws left: the new values (or `None` once the
/// budget is spent) and the state after the last draw.
pub open spec fn repair_draws(
    accepted: Seq<u32>,
    pending: Seq<u32>,
    s: Seq<u64>,
    count: nat,
    budget: nat,
) -> (Option<Seq<u32>>, Seq<u64>)
    decreases budget,
{
    if accepted.len() + pending.len() >= count {
        (Some(pending), s)
    } else if budget == 0 {
        (None, s)
    } else {
        let c = u32_value(s);
        let next = if !accepted.contains(c) && !pending.contains(c) {
            pending.push(c)
        } else {
            pending
        };
        repair_draws(accepted, next, u32_state(s), count, (budget - 1) as nat)
    }
}

/// The values that chunk-wise filling draws: each chunk of up to `chunk`
/// values from state `s`, the next chunk from its jump.
pub open spec fn chunk_fill(s: Seq<u64>, chunk: nat, n: nat) -> Seq<u32>
    decreases n,
{
    if n == 0 || chunk == 0 {
        Seq::empty()
    } else {
        let len = if n < chunk { n } else { chunk };
        u32_fill_values(s, len) + chunk_fill(jump_words(s), chunk, (n - len) as nat)
    }
}

/// The state of the primary stream once those chunks took their sub-streams.
pub open spec fn chunk_fill_state(s: Seq<u64>, chunk: nat, n: nat) -> Seq<u64>
    decreases n,
{
    if n == 0 || chunk == 0 {
        s
    } else {
        let len = if n < chunk { n } else { chunk };
        chunk_fill_state(jump_words(s), chunk, (n - len) as nat)
    }
}

/// Ascending order on `u32`.
pub open spec fn u32_leq() -> spec_fn(u32, u32) -> bool {
    |a: u32, b: u32| a <= b
}

/// The size of the chunks that `count` values are filled in.
pub open spec fn fill_chunk(count: nat) -> nat {
    if count / 32 > 0 { count / 32 } else { 1 }
}

/// The outcome of drawing `count` distinct values from state `s`: the
/// values (or `None`) and the state afterwards. It depends on the state
/// alone, so equal generators give equal values.
pub open spec fn unique_u32_outcome(count: nat, s: Seq<u64>) -> (Option<Seq<u32>>, Seq<u64>) {
    let drawn = chunk_fill(s, fill_chunk(count), count);
    let s1 = chunk_fill_state(s, fill_chunk(count), count);
    let accepted = dedup_seq(drawn.sort_by(u32_leq()));
    let (p, s2) = repair_draws(accepted, Seq::empty(), s1, count, REPAIR_DRAW_LIMIT as nat);
    match p {
        None => (None, s2),
        Some(p) => (
            Some(shuffled(accepted + p, s2)),
            shuffle_state(s2, count, vstd::layout::size_of::<u32>()),
        ),
    }
}

/// Keeps the first of each run of equal values of a sorted sequence.
pub fn dedup_sorted(v: &Vec<u32>) -> (r: Vec<u32>)
    requires
        sorted(v@),
    ensures
        r@ == dedup_seq(v@),
        strictly_sorted(r@),
        r@.len() <= v@.len(),
        forall|x: u32| r@.contains(x) <==> v@.contains(x),
{
    let mut r: Vec<u32> = Vec::new();
    let mut i: usize = 0;
    while i < v.len()
        invariant
            i <= v@.len(),
            sorted(v@),
            strictly_sorted(r@),
            r@.len() <= i,
            r@.len() > 0 ==> r@.last() == v@[i - 1],
            i > 0 ==> r@.len() > 0,
            r@ == dedup_seq(v@.take(i as int)),
            forall|k: int| 0 <= k < r@.len() ==> exists|j: int| 0 <= j < i && v@[j] == #[trigger] r@[k],
            forall|j: int| 0 <= j < i ==> r@.contains(v@[j]),
        decreases v@.len() - i,
    {
        let x = v[i];
        proof {
            assert(v@.take(i + 1).drop_last() =~= v@.take(i as int));
            assert(v@.take(i + 1).last() == x);
        }
        if r.len() == 0 || r[r.len() - 1] != x {
            proof {
                if r@.len() > 0 {
                    assert(r@.last() <= x);
                }
            }
            let ghost prev = r@;
            r.push(x);
            proof {
                assert(r@[r@.len() - 1] == v@[i as int]);
                assert forall|j: int| 0 <= j <= i implies r@.contains(v@[j]) by {
                    if j < i {
                        assert(prev.contains(v@[j]));
                        let k = choose|k: int| 0 <= k < prev.len() && prev[k] == v@[j];
                        assert(r@[k] == v@[j]);
                    } else {
                        assert(r@[r@.len() - 1] == v@[j]);
                    }
                }
            }
        } else {
            proof {
                assert(r@[r@.len() - 1] == v@[i as int]);
            }
        }
        i = i + 1;
    }
    proof {
        assert(v@.take(i as int) =~= v@);
        assert forall|x: u32| r@.contains(x) implies v@.contains(x) by {
            let k = choose|k: int| 0 <= k < r@.len() && r@[k] == x;
            let j = choose|j: int| 0 <= j < i && v@[j] == r@[k];
            assert(v@[j] == x);
        }
        assert forall|x: u32| v@.contains(x) implies r@.contains(x) by {
            let j = choose|j: int| 0 <= j < v@.len() && v@[j] == x;
        }
    }
    r
}

/// Whether a strictly sorted sequence holds `x`, by binary search.
pub fn contains_sorted(v: &Vec<u32>, x: u32) -> (r: bool)
    requires
        strictly_sorted(v@),
    ensures
        r == v@.contains(x),
{
    let mut lo: usize = 0;
    let mut hi: usize = v.len();
    while lo < hi
        invariant
            lo <= hi <= v@.len(),
            strictly_sorted(v@),
            forall|j: int| 0 <= j < lo ==> v@[j] < x,
            forall|j: int| hi <= j < v@.len() ==> v@[j] > x,
        decreases hi - lo,
    {
        let mid = lo + (hi - lo) / 2;
        if v[mid] == x {
            return true;
        } else if v[mid] < x {
            lo = mid + 1;
        } else {
            hi = mid;
        }
    }
    false
}

/// Upper bound on the draws of one repair pass; a domain too small for the
/// request exhausts it instead of looping for ever.
pub const REPAIR_DRAW_LIMIT: u64 = 0xffff_ffff_ffff_ffff;

/// Draws fresh values one at a time from the primary stream until, together
/// with the already accepted `accepted`, there are `count` distinct values.
/// Returns the new values, none of them in `accepted` and none twice, or
/// `None` once the draw limit is spent.
pub fn repair_shortfall(accepted: &Vec<u32>, count: usize, rng: &mut MainRng) -> (r: Option<Vec<u32>>)
    requires
        strictly_sorted(accepted@),
        accepted@.len() <= count,
    ensures
        match r {
            Some(p) => {
                &&& accepted@.len() + p@.len() == count
                &&& p@.no_duplicates()
                &&& forall|x: u32| p@.contains(x) ==> !accepted@.contains(x)
            },
            None => accepted@.len() < count,
        },
        (match r {
            Some(p) => Some(p@),
            None => None::<Seq<u32>>,
        }) == repair_draws(accepted@, Seq::empty(), rng_words(*old(rng)), count as nat, REPAIR_DRAW_LIMIT as nat).0,
        rng_words(*final(rng)) == repair_draws(accepted@, Seq::empty(), rng_words(*old(rng)), count as nat, REPAIR_DRAW_LIMIT as nat).1,
{
    let ghost s0 = rng_words(*rng);
    let mut pending: Vec<u32> = Vec::new();
    let mut seen: HashSet<u32> = HashSet::new();
    let mut budget: u64 = REPAIR_DRAW_LIMIT;
    while accepted.len() + pending.len() < count
        invariant
            strictly_sorted(accepted@),
            accepted@.len() + pending@.len() <= count,
            pending@.no_duplicates(),
            forall|x: u32| pending@.contains(x) ==> !accepted@.contains(x),
            forall|x: u32| seen@.contains(x) <==> pending@.contains(x),
            s0 == rng_words(*old(rng)),
            repair_draws(accepted@, pending@, rng_words(*rng), count as nat, budget as nat)
                == repair_draws(accepted@, Seq::empty(), s0, count as nat, REPAIR_DRAW_LIMIT as nat),
        decreases budget,
    {
        if budget == 0 {
            assert(repair_draws(accepted@, pending@, rng_words(*rng), count as nat, 0)
                == (None::<Seq<u32>>, rng_words(*rng)));
            return None;
        }
        let ghost cur = rng_words(*rng);
        let ghost held = pending@;
        budget = budget - 1;
        let candidate = next_u32(rng);
        assert(repair_draws(accepted@, held, cur, count as nat, (budget + 1) as nat)
            == repair_draws(accepted@, if !accepted@.contains(candidate) && !held.contains(candidate) {
                held.push(candidate)
            } else {
                held
            }, rng_words(*rng), count as nat, budget as nat));
        if !contains_sorted(accepted, candidate) && !seen.contains(&candidate) {
            let ghost prev = pending@;
            pending.push(candidate);
            seen.insert(candidate);
            proof {
                assert forall|x| seen@.contains(x) <==> pending@.contains(x) by {
                    if x == candidate {
                        assert(pending@[pending@.len() - 1] == x);
                    } else if prev.contains(x) {
                        let k = choose|k: int| 0 <= k < prev.len() && prev[k] == x;
                        assert(pending@[k] == x);
                    } else if pending@.contains(x) {
                        let k = choose|k: int| 0 <= k < pending@.len() && pending@[k] == x;
                        assert(prev[k] == x);
                    }
                }
                assert forall|x: u32| pending@.contains(x) implies !accepted@.contains(x) by {
                    let k = choose|k: int| 0 <= k < pending@.len() && pending@[k] == x;
                    if k < pending@.len() - 1 {
                        assert(prev[k] == x);
                        assert(prev.contains(x));
                    }
                }
                assert forall|a: int, b: int| 0 <= a < pending@.len() && 0 <= b < pending@.len() && a != b
                    implies pending@[a] != pending@[b] by {
                    let last = pending@.len() - 1;
                    if a == last && b < last {
                        assert(prev[b] == pending@[b]);
                    } else if b == last && a < last {
                        assert(prev[a] == pending@[a]);
                    }
                }
            }
        }
    }
    assert(repair_draws(accepted@, pending@, rng_words(*rng), count as nat, budget as nat)
        == (Some(pending@), rng_words(*rng)));
    Some(pending)
}

/// Exactly `count` distinct 32-bit values in random order: chunks of about
/// `count / 32` values are filled from one sub-stream each, the whole is
/// sorted and deduplicated, the shortfall is repaired from the primary
/// stream, and the result is shuffled. `None` only when the repair's draw
/// limit is spent.
pub fn unique_u32s(count: u32, rng: &mut MainRng) -> (r: Option<Vec<u32>>)
    ensures
        match r {
            Some(v) => v@.len() == count && v@.no_duplicates(),
            None => count > 0,
        },
        (match r {
            Some(v) => Some(v@),
            None => None::<Seq<u32>>,
        }) == unique_u32_outcome(count as nat, rng_words(*old(rng))).0,
        rng_words(*final(rng)) == unique_u32_outcome(count as nat, rng_words(*old(rng))).1,
{
    let ghost s0 = rng_words(*rng);
    let total = count as usize;
    let chunk: usize = if total / 32 > 0 { total / 32 } else { 1 };
    assert(chunk == fill_chunk(total as nat));
    let mut out: Vec<u32> = Vec::new();
    while out.len() < total
        invariant
            out@.len() <= total,
            chunk > 0,
            s0 == rng_words(*old(rng)),
            out@ + chunk_fill(rng_words(*rng), chunk as nat, (total - out@.len()) as nat)
                == chunk_fill(s0, chunk as nat, total as nat),
            chunk_fill_state(rng_words(*rng), chunk as nat, (total - out@.len()) as nat)
                == chunk_fill_state(s0, chunk as nat, total as nat),
        decreases total - out@.len(),
    {
        let ghost c = rng_words(*rng);
        let ghost prefix = out@;
        let len: usize = if total - out.len() < chunk { total - out.len() } else { chunk };
        let mut sub = next_stream(rng);
        let mut part: Vec<u32> = Vec::new();
        let mut k: usize = 0;
        while k < len
            invariant
                k <= len,
                part@.len() == k,
            decreases len - k,
        {
            part.push(0);
            k = k + 1;
        }
        fill_u32s(&mut sub, &mut part);
        out.append(&mut part);
        proof {
            let rem = (total - prefix.len()) as nat;
            assert(chunk_fill(c, chunk as nat, rem)
                == u32_fill_values(c, len as nat) + chunk_fill(jump_words(c), chunk as nat, (rem - len) as nat));
            assert(out@ + chunk_fill(jump_words(c), chunk as nat, (rem - len) as nat)
                =~= prefix + chunk_fill(c, chunk as nat, rem));
        }
    }
    assert(out@ + chunk_fill(rng_words(*rng), chunk as nat, 0) =~= out@);
    let ghost drawn = out@;
    sort_u32s(&mut out);
    let accepted = dedup_sorted(&out);
    let pending = match repair_shortfall(&accepted, total, rng) {
        Some(p) => p,
        None => {
            return None;
        },
    };
    let mut result = accepted.clone();
    let mut tail = pending.clone();
    result.append(&mut tail);
    assert(result@ =~= accepted@ + pending@);
    proof {
        assert(accepted@.no_duplicates()) by {
            assert forall|i: int, j: int| 0 <= i < accepted@.len() && 0 <= j < accepted@.len() && i != j
                implies accepted@[i] != accepted@[j] by {
                if i < j {
                    assert(accepted@[i] < accepted@[j]);
                } else {
                    assert(accepted@[j] < accepted@[i]);
                }
            }
        }
        lemma_append_distinct(accepted@, pending@);
    }
    let ghost before = result@;
    shuffle(&mut result, rng);
    proof {
        lemma_rearranged_distinct(before, result@);
        before.to_multiset_ensures();
        result@.to_multiset_ensures();
    }
    Some(result)
}

/// Keeps the first of each run of equal values, scanning from the front.
pub open spec fn dedup_seq64(s: Seq<u64>) -> Seq<u64>
    decreases s.len(),
{
    if s.len() == 0 {
        s
    } else {
        let d = dedup_seq64(s.drop_last());
        if d.len() > 0 && d.last() == s.last() {
            d
        } else {
            d.push(s.last())
        }
    }
}

/// What the repair draws from state `s`, with `pending` already accepted
/// and at most `budget` draws left: the new values (or `None` once the
/// budget is spent) and the state after the last draw.
pub open spec fn repair_draws64(
    accepted: Seq<u64>,
    pending: Seq<u64>,
    s: Seq<u64>,
    count: nat,
    budget: nat,
) -> (Option<Seq<u64>>, Seq<u64>)
    decreases budget,
{
    if accepted.len() + pending.len() >= count {
        (Some(pending), s)
    } else if budget == 0 {
        (None, s)
    } else {
        let c = u64_value(s);
        let next = if !accepted.contains(c) && !pending.contains(c) {
            pending.push(c)
        } else {
            pending
        };
        repair_draws64(accepted, next, u64_state(s), count, (budget - 1) as nat)
    }
}

/// The values that chunk-wise filling draws: each chunk of up to `chunk`
/// values from state `s`, the next chunk from its jump.
pub open spec fn chunk_fill64(s: Seq<u64>, chunk: nat, n: nat) -> Seq<u64>
    decreases n,
{
    if n == 0 || chunk == 0 {
        Seq::empty()
    } else {
        let len = if n < chunk { n } else { chunk };
        u64_fill_values(s, len) + chunk_fill64(jump_words(s), chunk, (n - len) as nat)
    }
}

/// The state of the primary stream once those chunks took their sub-streams.
pub open spec fn chunk_fill_state64(s: Seq<u64>, chunk: nat, n: nat) -> Seq<u64>
    decreases n,
{
    if n == 0 || chunk == 0 {
        s
    } else {
        let len = if n < chunk { n } else { chunk };
        chunk_fill_state64(jump_words(s), chunk, (n - len) as nat)
    }
}

/// Ascending order on `u64`.
pub open spec fn u64_leq() -> spec_fn(u64, u64) -> bool {
    |a: u64, b: u64| a <= b
}

/// The outcome of drawing `count` distinct values from state `s`: the
/// values (or `None`) and the state afterwards. It depends on the state
/// alone, so equal generators give equal values.
pub open spec fn unique_u64_outcome(count: nat, s: Seq<u64>) -> (Option<Seq<u64>>, Seq<u64>) {
    let drawn = chunk_fill64(s, fill_chunk(count), count);
    let s1 = chunk_fill_state64(s, fill_chunk(count), count);
    let accepted = dedup_seq64(drawn.sort_by(u64_leq()));
    let (p, s2) = repair_draws64(accepted, Seq::empty(), s1, count, REPAIR_DRAW_LIMIT as nat);
    match p {
        None => (None, s2),
        Some(p) => (
            Some(shuffled(accepted + p, s2)),
            shuffle_state(s2, count, vstd::layout::size_of::<u64>()),
        ),
    }
}

/// Non-decreasing order of 64-bit values.
pub open spec fn sorted64(s: Seq<u64>) -> bool {
    forall|i: int, j: int| 0 <= i < j < s.len() ==> s[i] <= s[j]
}

/// Strictly increasing order of 64-bit values, hence no value twice.
pub open spec fn strictly_sorted64(s: Seq<u64>) -> bool {
    forall|i: int, j: int| 0 <= i < j < s.len() ==> s[i] < s[j]
}

/// Relies on rayon's `par_sort` over `u64`: a stable sort of the slice, so
/// the result is ordered and holds the same values; under a total order
/// that arrangement is unique.
#[verifier::external_body]
pub(crate) fn sort_u64s(v: &mut Vec<u64>)
    ensures
        final(v)@ == old(v)@.sort_by(u64_leq()),
        sorted64(final(v)@),
        final(v)@.len() == old(v)@.len(),
        final(v)@.to_multiset() == old(v)@.to_multiset(),
{
    v.par_sort()
}

/// Keeps the first of each run of equal values of a sorted sequence.
pub fn dedup_sorted64(v: &Vec<u64>) -> (r: Vec<u64>)
    requires
        sorted64(v@),
    ensures
        r@ == dedup_seq64(v@),
        strictly_sorted64(r@),
        r@.len() <= v@.len(),
        forall|x: u64| r@.contains(x) <==> v@.contains(x),
{
    let mut r: Vec<u64> = Vec::new();
    let mut i: usize = 0;
    while i < v.len()
        invariant
            i <= v@.len(),
            sorted64(v@),
            strictly_sorted64(r@),
            r@.len() <= i,
            r@.len() > 0 ==> r@.last() == v@[i - 1],
            i > 0 ==> r@.len() > 0,
            r@ == dedup_seq64(v@.take(i as int)),
            forall|k: int| 0 <= k < r@.len() ==> exists|j: int| 0 <= j < i && v@[j] == #[trigger] r@[k],
            forall|j: int| 0 <= j < i ==> r@.contains(v@[j]),
        decreases v@.len() - i,
    {
        let x = v[i];
        proof {
            assert(v@.take(i + 1).drop_last() =~= v@.take(i as int));
            assert(v@.take(i + 1).last() == x);
        }
        if r.len() == 0 || r[r.len() - 1] != x {
            proof {
                if r@.len() > 0 {
                    assert(r@.last() <= x);
                }
            }
            let ghost prev = r@;
            r.push(x);
            proof {
                assert(r@[r@.len() - 1] == v@[i as int]);
                assert forall|j: int| 0 <= j <= i implies r@.contains(v@[j]) by {
                    if j < i {
                        assert(prev.contains(v@[j]));
                        let k = choose|k: int| 0 <= k < prev.len() && prev[k] == v@[j];
                        assert(r@[k] == v@[j]);
                    } else {
                        assert(r@[r@.len() - 1] == v@[j]);
                    }
                }
            }
        } else {
            proof {
                assert(r@[r@.len() - 1] == v@[i as int]);
            }
        }
        i = i + 1;
    }
    proof {
        assert(v@.take(i as int) =~= v@);
        assert forall|x: u64| r@.contains(x) implies v@.contains(x) by {
            let k = choose|k: int| 0 <= k < r@.len() && r@[k] == x;
            let j = choose|j: int| 0 <= j < i && v@[j] == r@[k];
            assert(v@[j] == x);
        }
        assert forall|x: u64| v@.contains(x) implies r@.contains(x) by {
            let j = choose|j: int| 0 <= j < v@.len() && v@[j] == x;
        }
    }
    r
}

/// Whether a strictly sorted sequence holds `x`, by binary search.
pub fn contains_sorted64(v: &Vec<u64>, x: u64) -> (r: bool)
    requires
        strictly_sorted64(v@),
    ensures
        r == v@.contains(x),
{
    let mut lo: usize = 0;
    let mut hi: usize = v.len();
    while lo < hi
        invariant
            lo <= hi <= v@.len(),
            strictly_sorted64(v@),
            forall|j: int| 0 <= j < lo ==> v@[j] < x,
            forall|j: int| hi <= j < v@.len() ==> v@[j] > x,
        decreases hi - lo,
    {
        let mid = lo + (hi - lo) / 2;
        if v[mid] == x {
            return true;
        } else if v[mid] < x {
            lo = mid + 1;
        } else {
            hi = mid;
        }
    }
    false
}

/// Draws fresh values one at a time from the primary stream until, together
/// with the already accepted `accepted`, there are `count` distinct values.
/// Returns the new values, none of them in `accepted` and none twice, or
/// `None` once the draw limit is spent.
pub fn repair_shortfall64(accepted: &Vec<u64>, count: usize, rng: &mut MainRng) -> (r: Option<Vec<u64>>)
    requires
        strictly_sorted64(accepted@),
        accepted@.len() <= count,
    ensures
        match r {
            Some(p) => {
                &&& accepted@.len() + p@.len() == count
                &&& p@.no_duplicates()
                &&& forall|x: u64| p@.contains(x) ==> !accepted@.contains(x)
            },
            None => accepted@.len() < count,
        },
        (match r {
            Some(p) => Some(p@),
            None => None::<Seq<u64>>,
        }) == repair_draws64(accepted@, Seq::empty(), rng_words(*old(rng)), count as nat, REPAIR_DRAW_LIMIT as nat).0,
        rng_words(*final(rng)) == repair_draws64(accepted@, Seq::empty(), rng_words(*old(rng)), count as nat, REPAIR_DRAW_LIMIT as nat).1,
{
    let ghost s0 = rng_words(*rng);
    let mut pending: Vec<u64> = Vec::new();
    let mut seen: HashSet<u64> = HashSet::new();
    let mut budget: u64 = REPAIR_DRAW_LIMIT;
    while accepted.len() + pending.len() < count
        invariant
            strictly_sorted64(accepted@),
            accepted@.len() + pending@.len() <= count,
            pending@.no_duplicates(),
            forall|x: u64| pending@.contains(x) ==> !accepted@.contains(x),
            forall|x: u64| seen@.contains(x) <==> pending@.contains(x),
            s0 == rng_words(*old(rng)),
            repair_draws64(accepted@, pending@, rng_words(*rng), count as nat, budget as nat)
                == repair_draws64(accepted@, Seq::empty(), s0, count as nat, REPAIR_DRAW_LIMIT as nat),
        decreases budget,
    {
        if budget == 0 {
            assert(repair_draws64(accepted@, pending@, rng_words(*rng), count as nat, 0)
                == (None::<Seq<u64>>, rng_words(*rng)));
            return None;
        }
        let ghost cur = rng_words(*rng);
        let ghost held = pending@;
        budget = budget - 1;
        let candidate = next_u64(rng);
        assert(repair_draws64(accepted@, held, cur, count as nat, (budget + 1) as nat)
            == repair_draws64(accepted@, if !accepted@.contains(candidate) && !held.contains(candidate) {
                held.push(candidate)
            } else {
                held
            }, rng_words(*rng), count as nat, budget as nat));
        if !contains_sorted64(accepted, candidate) && !seen.contains(&candidate) {
            let ghost prev = pending@;
            pending.push(candidate);
            seen.insert(candidate);
            proof {
                assert forall|x| seen@.contains(x) <==> pending@.contains(x) by {
                    if x == candidate {
                        assert(pending@[pending@.len() - 1] == x);
                    } else if prev.contains(x) {
                        let k = choose|k: int| 0 <= k < prev.len() && prev[k] == x;
                        assert(pending@[k] == x);
                    } else if pending@.contains(x) {
                        let k = choose|k: int| 0 <= k < pending@.len() && pending@[k] == x;
                        assert(prev[k] == x);
                    }
                }
                assert forall|x: u64| pending@.contains(x) implies !accepted@.contains(x) by {
                    let k = choose|k: int| 0 <= k < pending@.len() && pending@[k] == x;
                    if k < pending@.len() - 1 {
                        assert(prev[k] == x);
                        assert(prev.contains(x));
                    }
                }
                assert forall|a: int, b: int| 0 <= a < pending@.len() && 0 <= b < pending@.len() && a != b
                    implies pending@[a] != pending@[b] by {
                    let last = pending@.len() - 1;
                    if a == last && b < last {
                        assert(prev[b] == pending@[b]);
                    } else if b == last && a < last {
                        assert(prev[a] == pending@[a]);
                    }
                }
            }
        }
    }
    assert(repair_draws64(accepted@, pending@, rng_words(*rng), count as nat, budget as nat)
        == (Some(pending@), rng_words(*rng)));
    Some(pending)
}

/// Exactly `count` distinct 64-bit values in random order: chunks of about
/// `count / 32` values are filled from one sub-stream each, the whole is
/// sorted and deduplicated, the shortfall is repaired from the primary
/// stream, and the result is shuffled. `None` only when the repair's draw
/// limit is spent.
pub fn unique_u64s(count: u32, rng: &mut MainRng) -> (r: Option<Vec<u64>>)
    ensures
        match r {
            Some(v) => v@.len() == count && v@.no_duplicates(),
            None => count > 0,
        },
        (match r {
            Some(v) => Some(v@),
            None => None::<Seq<u64>>,
        }) == unique_u64_outcome(count as nat, rng_words(*old(rng))).0,
        rng_words(*final(rng)) == unique_u64_outcome(count as nat, rng_words(*old(rng))).1,
{
    let ghost s0 = rng_words(*rng);
    let total = count as usize;
    let chunk: usize = if total / 32 > 0 { total / 32 } else { 1 };
    assert(chunk == fill_chunk(total as nat));
    let mut out: Vec<u64> = Vec::new();
    while out.len() < total
        invariant
            out@.len() <= total,
            chunk > 0,
            s0 == rng_words(*old(rng)),
            out@ + chunk_fill64(rng_words(*rng), chunk as nat, (total - out@.len()) as nat)
                == chunk_fill64(s0, chunk as nat, total as nat),
            chunk_fill_state64(rng_words(*rng), chunk as nat, (total - out@.len()) as nat)
                == chunk_fill_state64(s0, chunk as nat, total as nat),
        decreases total - out@.len(),
    {
        let ghost c = rng_words(*rng);
        let ghost prefix = out@;
        let len: usize = if total - out.len() < chunk { total - out.len() } else { chunk };
        let mut sub = next_stream(rng);
        let mut part: Vec<u64> = Vec::new();
        let mut k: usize = 0;
        while k < len
            invariant
                k <= len,
                part@.len() == k,
            decreases len - k,
        {
            part.push(0);
            k = k + 1;
        }
        fill_u64s(&mut sub, &mut part);
        out.append(&mut part);
        proof {
            let rem = (total - prefix.len()) as nat;
            assert(chunk_fill64(c, chunk as nat, rem)
                == u64_fill_values(c, len as nat) + chunk_fill64(jump_words(c), chunk as nat, (rem - len) as nat));
            assert(out@ + chunk_fill64(jump_words(c), chunk as nat, (rem - len) as nat)
                =~= prefix + chunk_fill64(c, chunk as nat, rem));
        }
    }
    assert(out@ + chunk_fill64(rng_words(*rng), chunk as nat, 0) =~= out@);
    sort_u64s(&mut out);
    let accepted = dedup_sorted64(&out);
    let pending = match repair_shortfall64(&accepted, total, rng) {
        Some(p) => p,
        None => {
            return None;
        },
    };
    let mut result = accepted.clone();
    let mut tail = pending.clone();
    result.append(&mut tail);
    assert(result@ =~= accepted@ + pending@);
    proof {
        assert(accepted@.no_duplicates()) by {
            assert forall|i: int, j: int| 0 <= i < accepted@.len() && 0 <= j < accepted@.len() && i != j
                implies accepted@[i] != accepted@[j] by {
                if i < j {
                    assert(accepted@[i] < accepted@[j]);
                } else {
                    assert(accepted@[j] < accepted@[i]);
                }
            }
        }
        lemma_append_distinct(accepted@, pending@);
    }
    let ghost before = result@;
    shuffle(&mut result, rng);
    proof {
        lemma_rearranged_distinct(before, result@);
        before.to_multiset_ensures();
        result@.to_multiset_ensures();
    }
    Some(result)
}

} // verus!
