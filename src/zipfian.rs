//! Zipfian access indices, decorrelated from the key order by a random
//! permutation of the key indices.

use crate::keys::{ascending, permuted_range};
use crate::rng::{
    jump_words, next_stream, rng_words, uniform_below, uniform_u32_state, uniform_u32_value, MainRng,
};
use crate::unique::{shuffle, shuffle_state, shuffled};
use rand::distributions::Distribution;
use vstd::prelude::*;
use zipf::ZipfDistribution;

verus! {

#[verifier::external_type_specification]
#[verifier::external_body]
pub struct ExZipfDistribution(ZipfDistribution);

/// The number of elements that a Zipf distribution was built over.
pub uninterp spec fn zipf_elements(d: ZipfDistribution) -> nat;

/// The exponent that a Zipf distribution was built with is finite. Its
/// constructor lets NaN and infinity through, and sampling then never ends.
pub uninterp spec fn zipf_exponent_is_finite(d: ZipfDistribution) -> bool;

/// The rank that sampling `d` from generator state `s` yields.
pub uninterp spec fn zipf_rank_value(d: ZipfDistribution, s: Seq<u64>) -> usize;

/// The generator state after sampling `d` from state `s`.
pub uninterp spec fn zipf_rank_state(d: ZipfDistribution, s: Seq<u64>) -> Seq<u64>;

/// Relies on `ZipfDistribution::sample`, which clamps its rank to
/// `[1, num_elements]` (exact while the count is far below 2^52) and returns
/// once its acceptance test holds, as it eventually does for a finite
/// exponent. The draw depends on the distribution and the generator state.
#[verifier::external_body]
fn zipf_rank(d: &ZipfDistribution, rng: &mut MainRng) -> (r: usize)
    requires
        zipf_exponent_is_finite(*d),
        zipf_elements(*d) <= u32::MAX,
    ensures
        zipf_exponent_is_finite(*d) ==> 1 <= r <= zipf_elements(*d),
        r == zipf_rank_value(*d, rng_words(*old(rng))),
        rng_words(*final(rng)) == zipf_rank_state(*d, rng_words(*old(rng))),
{
    d.sample(rng)
}

/// Where a rank is drawn from.
pub enum RankSampler {
    /// Zipf-distributed ranks, counted from 1.
    Zipf(ZipfDistribution),
    /// Uniform indices, the fallback for a skew of zero or below.
    Uniform,
}

/// A sampler that fits a key space of `n` indices.
pub open spec fn sampler_fits(s: &RankSampler, n: nat) -> bool {
    match s {
        RankSampler::Zipf(d) => zipf_elements(*d) == n && zipf_exponent_is_finite(*d) && n <= u32::MAX,
        RankSampler::Uniform => true,
    }
}

/// `perm` is a bijection of `[0, perm.len())` onto itself.
pub open spec fn is_permutation(perm: Seq<u32>) -> bool {
    &&& perm.no_duplicates()
    &&& forall|i: int| 0 <= i < perm.len() ==> #[trigger] perm[i] < perm.len()
}

/// Why no indices could be produced.
#[derive(Debug, Clone, Copy, PartialEq, Eq)]
pub enum ZipfError {
    /// Indices were asked for over an empty key space.
    EmptyKeySpace,
}

/// A random permutation of `[0, n)`.
pub fn random_permutation(n: u32, rng: &mut MainRng) -> (r: Vec<u32>)
    ensures
        r@.len() == n,
        is_permutation(r@),
        r@ == permuted_range(n, rng_words(*old(rng))),
        rng_words(*final(rng)) == shuffle_state(rng_words(*old(rng)), n as nat, vstd::layout::size_of::<u32>()),
{
    let mut perm = ascending(n);
    let ghost before = perm@;
    assert(before =~= Seq::new(n as nat, |i: int| i as u32));
    proof {
        assert(before.no_duplicates());
    }
    shuffle(&mut perm, rng);
    proof {
        before.lemma_multiset_has_no_duplicates();
        perm@.lemma_multiset_has_no_duplicates_conv();
        before.to_multiset_ensures();
        perm@.to_multiset_ensures();
        assert forall|i: int| 0 <= i < perm@.len() implies #[trigger] perm@[i] < perm@.len() by {
            let x = perm@[i];
            assert(perm@.contains(x));
            assert(before.to_multiset().count(x) > 0);
            assert(before.contains(x));
            let j = choose|j: int| 0 <= j < before.len() && before[j] == x;
            assert(before[j] == j);
        }
    }
    perm
}

/// The key index of a drawn rank: ranks count from 1 through the permutation.
pub fn index_for_rank(perm: &Vec<u32>, rank: usize) -> (r: u32)
    requires
        1 <= rank <= perm@.len(),
    ensures
        r == perm@[rank - 1],
{
    perm[rank - 1]
}

/// The index that one draw from state `s` gives: the permutation's entry at
/// a Zipf rank, or a uniform index.
pub open spec fn index_draw(perm: Seq<u32>, sampler: RankSampler, s: Seq<u64>) -> u32 {
    match sampler {
        RankSampler::Zipf(d) => perm[zipf_rank_value(d, s) - 1],
        RankSampler::Uniform => uniform_u32_value(s, perm.len() as u32),
    }
}

/// The generator state after one such draw.
pub open spec fn index_state(perm: Seq<u32>, sampler: RankSampler, s: Seq<u64>) -> Seq<u64> {
    match sampler {
        RankSampler::Zipf(d) => zipf_rank_state(d, s),
        RankSampler::Uniform => uniform_u32_state(s, perm.len() as u32),
    }
}

/// The indices of `n` draws from state `s`, in order.
pub open spec fn index_draws(perm: Seq<u32>, sampler: RankSampler, s: Seq<u64>, n: nat) -> Seq<u32>
    decreases n,
{
    if n == 0 {
        Seq::empty()
    } else {
        seq![index_draw(perm, sampler, s)] + index_draws(perm, sampler, index_state(perm, sampler, s), (n - 1) as nat)
    }
}

/// The generator state after `n` draws from state `s`.
pub open spec fn index_draws_state(perm: Seq<u32>, sampler: RankSampler, s: Seq<u64>, n: nat) -> Seq<u64>
    decreases n,
{
    if n == 0 {
        s
    } else {
        index_draws_state(perm, sampler, index_state(perm, sampler, s), (n - 1) as nat)
    }
}

/// The length of the chunk that starts with `n` indices left.
pub open spec fn chunk_len(n: nat) -> nat {
    if n < ZIPF_CHUNK { n } else { ZIPF_CHUNK as nat }
}

/// The indices of `n` draws made chunk by chunk: each chunk of up to 65,536
/// draws starts from state `s`, and the next chunk from its jump.
pub open spec fn chunked_draws(perm: Seq<u32>, sampler: RankSampler, s: Seq<u64>, n: nat) -> Seq<u32>
    decreases n,
{
    if n == 0 {
        Seq::empty()
    } else {
        index_draws(perm, sampler, s, chunk_len(n))
            + chunked_draws(perm, sampler, jump_words(s), (n - chunk_len(n)) as nat)
    }
}

/// The state of the handle once those chunks have taken their sub-streams.
pub open spec fn chunked_state(s: Seq<u64>, n: nat) -> Seq<u64>
    decreases n,
{
    if n == 0 {
        s
    } else {
        chunked_state(jump_words(s), (n - chunk_len(n)) as nat)
    }
}

/// One index: a Zipf rank mapped through the permutation, or a uniform index.
fn draw_index(perm: &Vec<u32>, sampler: &RankSampler, rng: &mut MainRng) -> (r: u32)
    requires
        perm@.len() > 0,
        is_permutation(perm@),
        sampler_fits(sampler, perm@.len()),
        perm@.len() <= u32::MAX,
    ensures
        r < perm@.len(),
        r == index_draw(perm@, *sampler, rng_words(*old(rng))),
        rng_words(*final(rng)) == index_state(perm@, *sampler, rng_words(*old(rng))),
{
    match sampler {
        RankSampler::Zipf(d) => index_for_rank(perm, zipf_rank(d, rng)),
        RankSampler::Uniform => uniform_below(rng, perm.len() as u32),
    }
}

/// Size of the chunks that each get a sub-stream of their own.
pub const ZIPF_CHUNK: usize = 65536;

/// `count` access indices over `key_count` keys: the key indices are
/// permuted once, then each chunk of up to 65,536 indices is drawn from a
/// sub-stream of its own. An empty key space admits only an empty request.
pub fn fill_zipf(rng: &mut MainRng, count: usize, key_count: u32, sampler: &RankSampler) -> (r: Result<Vec<u32>, ZipfError>)
    requires
        sampler_fits(sampler, key_count as nat),
    ensures
        (key_count == 0 && count > 0) <==> r == Err::<Vec<u32>, ZipfError>(ZipfError::EmptyKeySpace),
        r matches Ok(v) ==> {
            &&& v@.len() == count
            &&& forall|i: int| 0 <= i < v@.len() ==> #[trigger] v@[i] < key_count
        },
        key_count == 0 ==> *final(rng) == *old(rng),
        key_count > 0 ==> {
            let s = rng_words(*old(rng));
            let perm = permuted_range(key_count, s);
            let t = shuffle_state(s, key_count as nat, vstd::layout::size_of::<u32>());
            &&& r == Ok::<Vec<u32>, ZipfError>(r->Ok_0)
            &&& r->Ok_0@ == chunked_draws(perm, *sampler, t, count as nat)
            &&& rng_words(*final(rng)) == chunked_state(t, count as nat)
        },
{
    if key_count == 0 {
        if count == 0 {
            return Ok(Vec::new());
        }
        return Err(ZipfError::EmptyKeySpace);
    }
    let perm = random_permutation(key_count, rng);
    let ghost t = rng_words(*rng);
    let mut out: Vec<u32> = Vec::new();
    while out.len() < count
        invariant
            out@.len() <= count,
            perm@.len() == key_count > 0,
            is_permutation(perm@),
            sampler_fits(sampler, key_count as nat),
            forall|i: int| 0 <= i < out@.len() ==> #[trigger] out@[i] < key_count,
            out@ + chunked_draws(perm@, *sampler, rng_words(*rng), (count - out@.len()) as nat)
                == chunked_draws(perm@, *sampler, t, count as nat),
            chunked_state(rng_words(*rng), (count - out@.len()) as nat) == chunked_state(t, count as nat),
        decreases count - out@.len(),
    {
        let len: usize = if count - out.len() < ZIPF_CHUNK { count - out.len() } else { ZIPF_CHUNK };
        assert(len > 0);
        let ghost c = rng_words(*rng);
        let ghost prefix = out@;
        let ghost rem = (count - out@.len()) as nat;
        let mut sub = next_stream(rng);
        let ghost start = out@.len();
        let mut k: usize = 0;
        while k < len
            invariant
                k <= len,
                out@.len() == start + k,
                start + len <= count,
                perm@.len() == key_count > 0,
                is_permutation(perm@),
                sampler_fits(sampler, key_count as nat),
                forall|i: int| 0 <= i < out@.len() ==> #[trigger] out@[i] < key_count,
                out@ + index_draws(perm@, *sampler, rng_words(sub), (len - k) as nat)
                    == prefix + index_draws(perm@, *sampler, c, len as nat),
            decreases len - k,
        {
            let ghost before = rng_words(sub);
            let ghost cur = out@;
            let x = draw_index(&perm, sampler, &mut sub);
            out.push(x);
            proof {
                let rest = index_draws(perm@, *sampler, rng_words(sub), (len - k - 1) as nat);
                assert(index_draws(perm@, *sampler, before, (len - k) as nat) == seq![x] + rest);
                assert(out@ + rest =~= cur + (seq![x] + rest));
            }
            k = k + 1;
        }
        proof {
            assert(out@ =~= prefix + index_draws(perm@, *sampler, c, len as nat));
            assert(chunk_len(rem) == len);
            assert(chunked_draws(perm@, *sampler, c, rem)
                == index_draws(perm@, *sampler, c, len as nat) + chunked_draws(perm@, *sampler, jump_words(c), (rem - len) as nat));
            assert(out@ + chunked_draws(perm@, *sampler, jump_words(c), (rem - len) as nat)
                =~= prefix + chunked_draws(perm@, *sampler, c, rem));
        }
    }
    assert(out@ + chunked_draws(perm@, *sampler, rng_words(*rng), 0) =~= out@);
    Ok(out)
}

/// A reusable handle: a fixed permutation of the key indices and the
/// sampler of their ranks.
pub struct ZipfPermutationGenerator {
    pub permutation: Vec<u32>,
    pub dist: RankSampler,
}

impl ZipfPermutationGenerator {
    /// The permutation is a bijection of the key indices, and the sampler
    /// fits exactly as many keys.
    pub open spec fn wf(&self) -> bool {
        &&& is_permutation(self.permutation@)
        &&& sampler_fits(&self.dist, self.permutation@.len())
        &&& self.permutation@.len() <= u32::MAX
    }

    /// The number of keys that the handle draws indices over.
    pub open spec fn key_count(&self) -> nat {
        self.permutation@.len()
    }

    /// The permutation, rank by rank.
    pub fn permutation(&self) -> (r: &Vec<u32>)
        ensures
            r@ == self.permutation@,
    {
        &self.permutation
    }
}

/// Builds the reusable handle: the key indices `[0, count)` are permuted
/// once and kept with the sampler (Zipf, or uniform for a skew of zero or
/// below).
pub fn create_zipf_permutation(rng: &mut MainRng, count: u32, dist: RankSampler) -> (r: ZipfPermutationGenerator)
    requires
        sampler_fits(&dist, count as nat),
    ensures
        r.wf(),
        r.key_count() == count,
        r.dist == dist,
        r.permutation@ == permuted_range(count, rng_words(*old(rng))),
        rng_words(*final(rng)) == shuffle_state(rng_words(*old(rng)), count as nat, vstd::layout::size_of::<u32>()),
{
    let permutation = random_permutation(count, rng);
    ZipfPermutationGenerator { permutation, dist }
}

/// Draws `count` indices from a reusable handle on the calling thread,
/// without rebuilding its permutation. An empty key space admits only an
/// empty request, and leaves the stream untouched.
pub fn fill_zipf_single_thread(rng: &mut MainRng, dist: &ZipfPermutationGenerator, count: usize) -> (r: Result<Vec<u32>, ZipfError>)
    requires
        dist.wf(),
    ensures
        (dist.key_count() == 0 && count > 0) <==> r == Err::<Vec<u32>, ZipfError>(ZipfError::EmptyKeySpace),
        dist.key_count() == 0 ==> *final(rng) == *old(rng),
        r matches Ok(v) ==> {
            &&& v@.len() == count
            &&& forall|i: int| 0 <= i < v@.len() ==> #[trigger] v@[i] < dist.key_count()
        },
        dist.key_count() > 0 ==> {
            &&& r == Ok::<Vec<u32>, ZipfError>(r->Ok_0)
            &&& r->Ok_0@ == index_draws(dist.permutation@, dist.dist, rng_words(*old(rng)), count as nat)
            &&& rng_words(*final(rng)) == index_draws_state(dist.permutation@, dist.dist, rng_words(*old(rng)), count as nat)
        },
{
    if dist.permutation.len() == 0 {
        if count == 0 {
            return Ok(Vec::new());
        }
        return Err(ZipfError::EmptyKeySpace);
    }
    let ghost perm = dist.permutation@;
    let ghost s0 = rng_words(*rng);
    let mut out: Vec<u32> = Vec::new();
    let mut k: usize = 0;
    while k < count
        invariant
            dist.wf(),
            perm == dist.permutation@,
            perm.len() > 0,
            k <= count,
            out@.len() == k,
            forall|i: int| 0 <= i < out@.len() ==> #[trigger] out@[i] < dist.key_count(),
            out@ + index_draws(perm, dist.dist, rng_words(*rng), (count - k) as nat) == index_draws(perm, dist.dist, s0, count as nat),
            index_draws_state(perm, dist.dist, rng_words(*rng), (count - k) as nat) == index_draws_state(perm, dist.dist, s0, count as nat),
        decreases count - k,
    {
        let ghost before = rng_words(*rng);
        let ghost prev = out@;
        let x = draw_index(&dist.permutation, &dist.dist, rng);
        out.push(x);
        proof {
            let rest = index_draws(perm, dist.dist, rng_words(*rng), (count - k - 1) as nat);
            assert(index_draws(perm, dist.dist, before, (count - k) as nat) == seq![x] + rest);
            assert(out@ + rest =~= prev + (seq![x] + rest));
        }
        k = k + 1;
    }
    assert(out@ + index_draws(perm, dist.dist, rng_words(*rng), 0) =~= out@);
    Ok(out)
}

/// `count` Zipfian (or, with the uniform sampler, uniform) access indices
/// over `key_count` keys, in a freshly allocated buffer.
pub fn generate_zipf_indices(rng: &mut MainRng, key_count: u32, sampler: &RankSampler, count: u64) -> (r: Result<Vec<u32>, ZipfError>)
    requires
        sampler_fits(sampler, key_count as nat),
        count <= usize::MAX,
    ensures
        (key_count == 0 && count > 0) <==> r == Err::<Vec<u32>, ZipfError>(ZipfError::EmptyKeySpace),
        r matches Ok(v) ==> {
            &&& v@.len() == count
            &&& forall|i: int| 0 <= i < v@.len() ==> #[trigger] v@[i] < key_count
        },
        key_count == 0 ==> *final(rng) == *old(rng),
        key_count > 0 ==> {
            let s = rng_words(*old(rng));
            let t = shuffle_state(s, key_count as nat, vstd::layout::size_of::<u32>());
            &&& r == Ok::<Vec<u32>, ZipfError>(r->Ok_0)
            &&& r->Ok_0@ == chunked_draws(permuted_range(key_count, s), *sampler, t, count as nat)
            &&& rng_words(*final(rng)) == chunked_state(t, count as nat)
        },
{
    fill_zipf(rng, count as usize, key_count, sampler)
}

} // verus!
